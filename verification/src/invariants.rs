//! What holds of every chain that a container has been through.
use crate::evolution::{lemma_instantiate_evolves, lemma_resolve_all_evolves, lemma_resolve_evolves};
use crate::handle::HandleView;
use crate::model::{BindingView, ChainView, DecisionView, Event, LayerView, Outcome, SERIAL_LIMIT};
use crate::names::IdView;
use crate::request::{RequestView, ResponseView};
use vstd::prelude::*;

verus! {

/// How often the factory of the binding at `index` has produced an instance.
pub open spec fn successes(journal: Seq<Event>, index: nat) -> nat
    decreases journal.len(),
{
    if journal.len() == 0 {
        0
    } else {
        successes(journal.drop_last(), index) + if journal.last().binding == index
            && journal.last().outcome is Ok {
            1nat
        } else {
            0nat
        }
    }
}

/// How often the factory of the binding at `index` has run.
pub open spec fn executions(journal: Seq<Event>, index: nat) -> nat
    decreases journal.len(),
{
    if journal.len() == 0 {
        0
    } else {
        executions(journal.drop_last(), index) + if journal.last().binding == index {
            1nat
        } else {
            0nat
        }
    }
}

pub proof fn lemma_counts_push(journal: Seq<Event>, event: Event, index: nat)
    ensures
        successes(journal.push(event), index) == successes(journal, index) + if event.binding
            == index && event.outcome is Ok {
            1nat
        } else {
            0nat
        },
        executions(journal.push(event), index) == executions(journal, index) + if event.binding
            == index {
            1nat
        } else {
            0nat
        },
{
    assert(journal.push(event).drop_last() =~= journal);
}

impl LayerView {
    /// Whether the layer does something about a request for `id` other than
    /// keeping an answer: a binding for it, or a redirect that sends it
    /// elsewhere.
    pub open spec fn claims(self, id: IdView) -> bool {
        match self {
            LayerView::Binding(binding) => binding.service == id,
            LayerView::RedirectMap(rules) => rules.moves(id),
            LayerView::NamedCache(_) => false,
        }
    }

    /// Whether every instance that the layer keeps was constructed under a
    /// serial number below `issued`.
    pub open spec fn fresh(self, issued: nat) -> bool {
        match self {
            LayerView::Binding(binding) => binding.memo matches Some(handle) ==> handle.serial
                < issued,
            LayerView::NamedCache(cache) => forall|key: IdView| #[trigger]
                cache.store.contains_key(key) ==> cache.store[key].serial < issued,
            LayerView::RedirectMap(_) => true,
        }
    }
}

impl ChainView {
    /// Whether a layer below `depth` claims `id`.
    pub open spec fn mentions(self, depth: int, id: IdView) -> bool {
        exists|i: int| 0 <= i < depth && i < self.layers.len() && #[trigger] self.layers[i].claims(id)
    }

    /// Whether the layer at `index` is in order: what it keeps is older than
    /// the next serial number, a cache keeps answers only for what a layer
    /// below it claims, and a singleton keeps an instance exactly if its
    /// factory has produced one, which it has done at most once.
    pub open spec fn sound_at(self, index: int) -> bool {
        &&& self.layers[index].fresh(self.issued)
        &&& self.layers[index] matches LayerView::NamedCache(cache) ==> forall|key: IdView| #[trigger]
            cache.store.contains_key(key) ==> self.mentions(index, key)
        &&& self.layers[index] matches LayerView::Binding(binding) ==> binding.singleton
            ==> successes(self.journal, index as nat) == if binding.memo is Some {
            1nat
        } else {
            0nat
        }
    }

    /// Whether the chain is in order.
    pub open spec fn wf(self) -> bool {
        &&& forall|i: int| 0 <= i < self.layers.len() ==> #[trigger] self.sound_at(i)
        &&& forall|j: int|
            0 <= j < self.journal.len() ==> (#[trigger] self.journal[j]).binding
                < self.layers.len()
    }
}

/// No run of a binding that the journal does not reach is counted.
pub proof fn lemma_counts_beyond(journal: Seq<Event>, index: nat, bound: nat)
    requires
        forall|j: int| 0 <= j < journal.len() ==> (#[trigger] journal[j]).binding < bound,
        index >= bound,
    ensures
        successes(journal, index) == 0,
        executions(journal, index) == 0,
    decreases journal.len(),
{
    if journal.len() > 0 {
        let shorter = journal.drop_last();
        assert forall|j: int| 0 <= j < shorter.len() implies (#[trigger] shorter[j]).binding
            < bound by {
            assert(shorter[j] == journal[j]);
        }
        lemma_counts_beyond(shorter, index, bound);
        assert(journal.last() == journal[journal.len() - 1]);
    }
}

impl LayerView {
    /// Whether the layer keeps nothing yet.
    pub open spec fn is_new(self) -> bool {
        match self {
            LayerView::Binding(binding) => binding.memo is None,
            LayerView::NamedCache(cache) => cache.store =~= Map::empty(),
            LayerView::RedirectMap(_) => true,
        }
    }
}

/// A chain in order stays so when a layer that keeps nothing becomes its head.
pub proof fn lemma_wrapped_wf(chain: ChainView, layer: LayerView)
    requires
        chain.wf(),
        layer.is_new(),
    ensures
        chain.wrapped(layer).wf(),
{
    let after = chain.wrapped(layer);
    let n = chain.layers.len() as int;
    assert forall|i: int| 0 <= i < after.layers.len() implies #[trigger] after.sound_at(i) by {
        if i < n {
            assert(chain.sound_at(i));
            assert(after.layers[i] == chain.layers[i]);
            match chain.layers[i] {
                LayerView::NamedCache(cache) => {
                    assert forall|key: IdView| #[trigger]
                        cache.store.contains_key(key) implies after.mentions(i, key) by {
                        assert(chain.mentions(i, key));
                        let w = choose|w: int|
                            0 <= w < i && w < chain.layers.len() && #[trigger] chain.layers[w].claims(
                                key,
                            );
                        assert(after.layers[w].claims(key));
                    }
                },
                _ => {},
            }
        } else {
            lemma_counts_beyond(chain.journal, n as nat, n as nat);
        }
    }
}

/// Which layers claim a service does not change while a chain evolves.
pub proof fn lemma_mentions_stable(before: ChainView, after: ChainView, depth: int, id: IdView)
    requires
        before.evolves_to(after),
    ensures
        before.mentions(depth, id) == after.mentions(depth, id),
{
    if before.mentions(depth, id) {
        let i = choose|i: int|
            0 <= i < depth && i < before.layers.len() && #[trigger] before.layers[i].claims(id);
        assert(before.layers[i].evolves_to(after.layers[i]));
        assert(after.layers[i].claims(id));
    }
    if after.mentions(depth, id) {
        let i = choose|i: int|
            0 <= i < depth && i < after.layers.len() && #[trigger] after.layers[i].claims(id);
        assert(before.layers[i].evolves_to(after.layers[i]));
        assert(before.layers[i].claims(id));
    }
}

/// A chain in order stays so when one more serial number is given out.
pub proof fn lemma_wf_started(chain: ChainView)
    requires
        chain.wf(),
    ensures
        (ChainView { issued: chain.issued + 1, ..chain }).wf(),
{
    let started = ChainView { issued: chain.issued + 1, ..chain };
    assert forall|i: int| 0 <= i < started.layers.len() implies #[trigger] started.sound_at(i) by {
        assert(chain.sound_at(i));
        match chain.layers[i] {
            LayerView::NamedCache(cache) => {
                assert forall|key: IdView| #[trigger]
                    cache.store.contains_key(key) implies started.mentions(i, key) by {
                    assert(chain.mentions(i, key));
                    let w = choose|w: int|
                        0 <= w < i && w < chain.layers.len() && #[trigger] chain.layers[w].claims(
                            key,
                        );
                    assert(started.layers[w].claims(key));
                }
            },
            _ => {},
        }
    }
}

/// A chain in order stays so when a cache keeps a fresh answer to a request
/// that a layer below it claims.
pub proof fn lemma_wf_absorbed(chain: ChainView, index: int, key: IdView, response: ResponseView)
    requires
        chain.wf(),
        0 <= index < chain.layers.len(),
        response.handle.serial < chain.issued,
        chain.mentions(index, key),
    ensures
        chain.with_layer(index, chain.layers[index].absorbed(key, response)).wf(),
{
    let layer = chain.layers[index].absorbed(key, response);
    let after = chain.with_layer(index, layer);
    assert(chain.sound_at(index));
    assert forall|i: int| 0 <= i < after.layers.len() implies #[trigger] after.sound_at(i) by {
        assert(chain.sound_at(i));
        match after.layers[i] {
            LayerView::NamedCache(cache) => {
                assert forall|k: IdView| #[trigger] cache.store.contains_key(k) implies after.mentions(
                    i,
                    k,
                ) by {
                    assert(chain.mentions(i, k)) by {
                        if i == index && k == key {
                        } else {
                            let old_cache = chain.layers[i]->NamedCache_0;
                            assert(old_cache.store.contains_key(k));
                        }
                    }
                    let w = choose|w: int|
                        0 <= w < i && w < chain.layers.len() && #[trigger] chain.layers[w].claims(
                            k,
                        );
                    assert(after.layers[w].claims(k));
                }
            },
            _ => {},
        }
    }
}

/// A chain in order stays so when a factory has run and, where it produced
/// an instance for a singleton that kept none, the singleton keeps it.
pub proof fn lemma_wf_ran(
    ready: ChainView,
    index: nat,
    handles: Seq<HandleView>,
    outcome: Outcome,
    serial: nat,
)
    requires
        ready.wf(),
        index < ready.layers.len(),
        ready.layers[index as int] is Binding,
        serial < ready.issued,
        !(ready.layers[index as int]->Binding_0.singleton && ready.memo_at(index as int) is Some),
    ensures
        ({
            let binding = ready.layers[index as int]->Binding_0;
            let ran = ChainView {
                journal: ready.journal.push(Event { binding: index, dependencies: handles, outcome }),
                ..ready
            };
            match outcome {
                Err(_) => ran.wf(),
                Ok(instance) => {
                    let handle = HandleView { serial, type_tag: binding.produces, instance };
                    if binding.singleton {
                        ran.remember(index as int, handle).wf()
                    } else {
                        ran.wf()
                    }
                },
            }
        }),
{
    let binding = ready.layers[index as int]->Binding_0;
    let event = Event { binding: index, dependencies: handles, outcome };
    let ran = ChainView { journal: ready.journal.push(event), ..ready };
    let after = match outcome {
        Err(_) => ran,
        Ok(instance) => {
            let handle = HandleView { serial, type_tag: binding.produces, instance };
            if binding.singleton {
                ran.remember(index as int, handle)
            } else {
                ran
            }
        },
    };
    assert(ready.sound_at(index as int));
    assert forall|j: int| 0 <= j < after.journal.len() implies (#[trigger] after.journal[j]).binding
        < after.layers.len() by {
        if j < ready.journal.len() {
            assert(after.journal[j] == ready.journal[j]);
        }
    }
    assert forall|i: int| 0 <= i < after.layers.len() implies #[trigger] after.sound_at(i) by {
        assert(ready.sound_at(i));
        lemma_counts_push(ready.journal, event, i as nat);
        match after.layers[i] {
            LayerView::NamedCache(cache) => {
                assert(after.layers[i] == ready.layers[i]);
                assert forall|k: IdView| #[trigger] cache.store.contains_key(k) implies after.mentions(
                    i,
                    k,
                ) by {
                    assert(ready.mentions(i, k));
                    let w = choose|w: int|
                        0 <= w < i && w < ready.layers.len() && #[trigger] ready.layers[w].claims(
                            k,
                        );
                    assert(after.layers[w].claims(k));
                }
            },
            _ => {},
        }
    }
}

/// A chain in order is in order after it has answered a request, and an
/// answer is an instance older than the next serial number, to a request
/// that a layer claims.
pub proof fn lemma_instantiate_wf(
    chain: ChainView,
    depth: nat,
    request: RequestView,
    tape: Seq<Outcome>,
)
    requires
        chain.wf(),
        depth <= chain.layers.len(),
    ensures
        chain.instantiate(depth, request, tape).chain.wf(),
        chain.instantiate(depth, request, tape).result matches Ok(response)
            ==> response.handle.serial < chain.instantiate(depth, request, tape).chain.issued
            && chain.mentions(depth as int, request.service),
    decreases chain.remaining(), 0nat, depth,
{
    if depth == 0 {
    } else {
        let below = (depth - 1) as nat;
        let layer = chain.layers[depth - 1];
        assert(chain.sound_at(depth - 1));
        match layer.decide(request) {
            DecisionView::Forward(next) => {
                lemma_instantiate_wf(chain, below, next, tape);
                let inner = chain.instantiate(below, next, tape);
                if inner.result is Ok {
                    let w = choose|w: int|
                        0 <= w < below && w < chain.layers.len() && #[trigger] chain.layers[w].claims(
                            next.service,
                        );
                    assert(chain.layers[w].claims(request.service));
                }
            },
            DecisionView::Redirect(next) => {
                lemma_instantiate_wf(chain, below, next, tape);
                let inner = chain.instantiate(below, next, tape);
                if inner.result is Ok {
                    if next.service == request.service {
                        let w = choose|w: int|
                            0 <= w < below && w < chain.layers.len() && #[trigger] chain.layers[w].claims(
                                next.service,
                            );
                        assert(chain.layers[w].claims(request.service));
                    } else {
                        assert(chain.layers[depth - 1].claims(request.service));
                    }
                }
            },
            DecisionView::Attend(next) => {
                lemma_instantiate_wf(chain, below, next, tape);
                lemma_instantiate_evolves(chain, below, next, tape);
                let inner = chain.instantiate(below, next, tape);
                match inner.result {
                    Ok(response) => {
                        let w = choose|w: int|
                            0 <= w < below && w < chain.layers.len() && #[trigger] chain.layers[w].claims(
                                next.service,
                            );
                        assert(chain.layers[w].claims(request.service));
                        lemma_mentions_stable(chain, inner.chain, depth - 1, request.service);
                        lemma_wf_absorbed(inner.chain, depth - 1, request.service, response);
                    },
                    Err(_) => {},
                }
            },
            DecisionView::Answer(response) => {
                match layer {
                    LayerView::NamedCache(cache) => {
                        assert(cache.store.contains_key(request.service));
                        assert(chain.mentions(depth - 1, request.service));
                        let w = choose|w: int|
                            0 <= w < depth - 1 && w < chain.layers.len() && #[trigger] chain.layers[w].claims(
                                request.service,
                            );
                        assert(chain.layers[w].claims(request.service));
                    },
                    _ => {
                        assert(chain.layers[depth - 1].claims(request.service));
                    },
                }
            },
            DecisionView::Construct(binding) => {
                lemma_construct_wf(chain, below, binding, request.top, tape);
                assert(chain.layers[depth - 1].claims(request.service));
            },
        }
    }
}

/// A chain in order is in order after a binding has constructed its
/// instance, which is older than the next serial number.
pub proof fn lemma_construct_wf(
    chain: ChainView,
    index: nat,
    binding: BindingView,
    top: Seq<IdView>,
    tape: Seq<Outcome>,
)
    requires
        chain.wf(),
        index < chain.layers.len(),
        chain.layers[index as int] == LayerView::Binding(binding),
    ensures
        chain.construct(index, binding, top, tape).chain.wf(),
        chain.construct(index, binding, top, tape).result matches Ok(response)
            ==> response.handle.serial < chain.construct(index, binding, top, tape).chain.issued,
    decreases chain.remaining(), 0nat, 0nat,
{
    if chain.issued >= SERIAL_LIMIT {
    } else {
        let started = ChainView { issued: chain.issued + 1, ..chain };
        lemma_wf_started(chain);
        let guarded = top.push(binding.service);
        lemma_resolve_all_wf(started, binding.dependencies, guarded, tape);
        lemma_resolve_all_evolves(started, binding.dependencies, guarded, tape);
        let resolved = started.resolve_all(binding.dependencies, guarded, tape);
        let ready = resolved.chain;
        assert(started.layers[index as int].evolves_to(ready.layers[index as int]));
        match resolved.result {
            Err(_) => {},
            Ok(handles) => {
                let kept = ready.memo_at(index as int);
                assert(ready.sound_at(index as int));
                if binding.singleton && kept is Some {
                } else {
                    let outcome = tape[ready.journal.len() as int];
                    lemma_wf_ran(ready, index, handles, outcome, chain.issued);
                }
            },
        }
    }
}

/// A chain in order is in order after a service has been resolved, and the
/// instance is older than the next serial number.
pub proof fn lemma_resolve_wf(
    chain: ChainView,
    service: IdView,
    top: Seq<IdView>,
    tape: Seq<Outcome>,
)
    requires
        chain.wf(),
    ensures
        chain.resolve(service, top, tape).chain.wf(),
        chain.resolve(service, top, tape).result matches Ok(handle) ==> handle.serial
            < chain.resolve(service, top, tape).chain.issued && chain.mentions(
            chain.layers.len() as int,
            service,
        ),
    decreases chain.remaining(), 0nat, chain.layers.len() + 1,
{
    lemma_instantiate_wf(chain, chain.layers.len(), RequestView::initial(top, service), tape);
}

/// A chain in order is in order after services have been resolved one after
/// the other, and the instances are older than the next serial number.
pub proof fn lemma_resolve_all_wf(
    chain: ChainView,
    services: Seq<IdView>,
    top: Seq<IdView>,
    tape: Seq<Outcome>,
)
    requires
        chain.wf(),
    ensures
        chain.resolve_all(services, top, tape).chain.wf(),
        chain.resolve_all(services, top, tape).result matches Ok(handles) ==> handles.len()
            == services.len() && forall|i: int|
            0 <= i < handles.len() ==> (#[trigger] handles[i]).serial < chain.resolve_all(
                services,
                top,
                tape,
            ).chain.issued,
    decreases chain.remaining(), 1nat, services.len(),
{
    if services.len() > 0 {
        lemma_resolve_wf(chain, services[0], top, tape);
        lemma_resolve_evolves(chain, services[0], top, tape);
        let first = chain.resolve(services[0], top, tape);
        match first.result {
            Err(_) => {},
            Ok(handle) => {
                lemma_resolve_all_wf(first.chain, services.skip(1), top, tape);
                lemma_resolve_all_evolves(first.chain, services.skip(1), top, tape);
            },
        }
    }
}

} // verus!
