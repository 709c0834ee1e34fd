//! What travels through the chain: the request on the way down, the response
//! on the way back.
use crate::assoc::{Assoc, Key, KeySet, Share};
use crate::handle::{HandleView, InstanceHandle};
use crate::model::DecisionView;
use crate::names::{IdView, ServiceId};
use vstd::prelude::*;

verus! {

/// How often `id` occurs among `guards`.
pub open spec fn occurrences(guards: Seq<IdView>, id: IdView) -> nat
    decreases guards.len(),
{
    if guards.len() == 0 {
        0
    } else {
        occurrences(guards.drop_last(), id) + if guards.last() == id {
            1nat
        } else {
            0nat
        }
    }
}

pub proof fn lemma_occurrences_bound(guards: Seq<IdView>, id: IdView)
    ensures
        occurrences(guards, id) <= guards.len(),
        !guards.contains(id) ==> occurrences(guards, id) == 0,
        guards.contains(id) ==> occurrences(guards, id) >= 1,
    decreases guards.len(),
{
    if guards.len() > 0 {
        let shorter = guards.drop_last();
        lemma_occurrences_bound(shorter, id);
        if guards.contains(id) {
            let j = choose|j: int| 0 <= j < guards.len() && guards[j] == id;
            if j < guards.len() - 1 {
                assert(shorter[j] == id);
            }
        }
        if shorter.contains(id) {
            let j = choose|j: int| 0 <= j < shorter.len() && shorter[j] == id;
            assert(guards[j] == id);
        }
    }
}

/// Stands between a factory and the chain while the factory's service is
/// under construction: a request for that service is marked as one level
/// deeper.
pub struct ShadowGuard {
    pub guarded: ServiceId,
}

impl DeepView for ShadowGuard {
    type V = IdView;

    open spec fn deep_view(&self) -> IdView {
        self.guarded@
    }
}

/// What a factory's dependencies are resolved against: the chain, behind the
/// guards of all the constructions that are under way.
pub struct ResolutionRoot {
    pub guards: Vec<ShadowGuard>,
}

impl View for ResolutionRoot {
    type V = Seq<IdView>;

    open spec fn view(&self) -> Seq<IdView> {
        self.guards.deep_view()
    }
}

/// What a request denotes.
pub struct RequestView {
    /// The services under construction on this call path, outermost first.
    pub top: Seq<IdView>,
    pub service: IdView,
    /// The shadow level of `service`: 1 unless it is under construction.
    pub shadow: nat,
    pub interested: Set<Seq<char>>,
}

/// One request for an instance, made anew for every resolution.
pub struct InstantiationRequest {
    pub top: ResolutionRoot,
    pub service: ServiceId,
    pub shadow_levels: Assoc<ServiceId, u64>,
    pub interested_caches: KeySet<String>,
}

/// What a response denotes.
pub struct ResponseView {
    pub handle: HandleView,
    pub destined: Option<Seq<char>>,
}

/// The answer to a request: the instance and the cache that may keep it.
pub struct InstantiationResponse {
    pub instance: InstanceHandle,
    pub destined_cache: Option<String>,
}

impl View for InstantiationResponse {
    type V = ResponseView;

    open spec fn view(&self) -> ResponseView {
        ResponseView { handle: self.instance@, destined: self.destined_cache.deep_view() }
    }
}

impl InstantiationResponse {
    pub fn new(instance: InstanceHandle, destined_cache: Option<String>) -> (r: Self)
        ensures
            r@ == (ResponseView { handle: instance@, destined: destined_cache.deep_view() }),
    {
        InstantiationResponse { instance, destined_cache }
    }
}

impl RequestView {
    /// The request that a resolution of `service` starts with, behind `top`.
    pub open spec fn initial(top: Seq<IdView>, service: IdView) -> RequestView {
        RequestView {
            top,
            service,
            shadow: 1 + occurrences(top, service),
            interested: Set::empty(),
        }
    }

    pub open spec fn decremented(self) -> RequestView {
        RequestView { shadow: (self.shadow - 1) as nat, ..self }
    }

    pub open spec fn with_interest(self, cache: Seq<char>) -> RequestView {
        RequestView { interested: self.interested.insert(cache), ..self }
    }

    pub open spec fn redirected(self, service: IdView) -> RequestView {
        RequestView { service, ..self }
    }
}

impl ResolutionRoot {
    /// The chain itself, with no construction under way.
    pub fn new() -> (r: Self)
        ensures
            r@ == Seq::<IdView>::empty(),
    {
        let r = ResolutionRoot { guards: Vec::new() };
        assert(r@ =~= Seq::empty());
        r
    }

    pub fn share(&self) -> (r: Self)
        ensures
            r@ == self@,
    {
        let mut guards: Vec<ShadowGuard> = Vec::new();
        let mut i: usize = 0;
        while i < self.guards.len()
            invariant
                i <= self.guards.len(),
                guards.len() == i,
                forall|j: int| 0 <= j < i ==> guards[j].guarded@ == self.guards[j].guarded@,
            decreases self.guards.len() - i,
        {
            guards.push(ShadowGuard { guarded: self.guards[i].guarded.share() });
            i = i + 1;
        }
        let r = ResolutionRoot { guards };
        assert(r@ =~= self@);
        r
    }

    /// This root behind one more guard, for the construction of `guarded`.
    pub fn guarded_by(self, guarded: ServiceId) -> (r: Self)
        ensures
            r@ == self@.push(guarded@),
    {
        let mut guards = self.guards;
        guards.push(ShadowGuard { guarded });
        let r = ResolutionRoot { guards };
        assert(r@ =~= self@.push(guarded@));
        r
    }
}

impl InstantiationRequest {
    /// The shadow level of `id`: 1 where nothing else was recorded.
    pub open spec fn level(&self, id: IdView) -> nat {
        if self.shadow_levels.map().contains_key(id) {
            self.shadow_levels.map()[id] as nat
        } else {
            1
        }
    }

    /// The levels are at least 1, and only the requested service can be
    /// deeper than that.
    pub open spec fn wf(&self) -> bool {
        &&& self.level(self.service@) >= 1
        &&& forall|id: IdView| id != self.service@ ==> self.level(id) == 1
    }

    /// A request for `service` that enters at the head of the chain behind
    /// the guards of `top`, each of which has marked it if it guards `service`.
    pub fn new(top: ResolutionRoot, service: ServiceId) -> (r: Self)
        requires
            top@.len() < u64::MAX,
        ensures
            r.wf(),
            r@ == RequestView::initial(top@, service@),
    {
        let mut levels: Assoc<ServiceId, u64> = Assoc::new();
        levels.insert(service.share(), 1);
        let mut request = InstantiationRequest {
            top: ResolutionRoot::new(),
            service,
            shadow_levels: levels,
            interested_caches: KeySet::new(),
        };
        let mut i: usize = 0;
        while i < top.guards.len()
            invariant
                i <= top.guards.len(),
                top@.len() < u64::MAX,
                request.wf(),
                request.service == service,
                request.interested_caches.set() == Set::<Seq<char>>::empty(),
                request.level(service@) == 1 + occurrences(top@.take(i as int), service@),
            decreases top.guards.len() - i,
        {
            proof {
                lemma_occurrences_bound(top@.take(i as int), service@);
                assert(top@.take(i as int + 1).drop_last() =~= top@.take(i as int));
                assert(top@.take(i as int + 1).last() == top@[i as int]);
            }
            top.guards[i].let_through(&mut request);
            i = i + 1;
        }
        assert(top@.take(i as int) =~= top@);
        let ghost marked = request;
        request.top = top;
        assert(forall|id: IdView| request.level(id) == marked.level(id));
        request
    }

    /// The shadow level of the requested service.
    pub fn shadow(&self) -> (r: u64)
        ensures
            r == self@.shadow,
    {
        match self.shadow_levels.get(&self.service) {
            Some(level) => level,
            None => 1,
        }
    }

    /// Records that the cache `name` will keep the answer if it is destined
    /// for it.
    pub fn add_interest(&mut self, name: String)
        requires
            old(self).wf(),
        ensures
            final(self).wf(),
            final(self)@ == old(self)@.with_interest(name@),
    {
        let ghost before = *self;
        self.interested_caches.insert(name);
        assert(self.level(self.service@) == before.level(before.service@));
        assert forall|id: IdView| id != self.service@ implies self.level(id) == 1 by {
            assert(self.level(id) == before.level(id));
        }
    }

    /// Marks one more construction of `id` on this call path.
    pub fn increment_shadow(&mut self, id: &ServiceId)
        requires
            old(self).level(id@) < u64::MAX,
        ensures
            final(self).level(id@) == old(self).level(id@) + 1,
            forall|other: IdView| other != id@ ==> final(self).level(other) == old(self).level(other),
            final(self).top == old(self).top,
            final(self).service == old(self).service,
            final(self).interested_caches == old(self).interested_caches,
    {
        let level: u64 = match self.shadow_levels.get(id) {
            Some(level) => level,
            None => 1,
        };
        self.shadow_levels.insert(id.share(), level + 1);
    }

    /// Takes one level off `id` if it is deeper than 1, and says whether it did.
    pub fn decrement_shadow(&mut self, id: &ServiceId) -> (r: bool)
        ensures
            r == (old(self).level(id@) > 1),
            final(self).level(id@) == if r {
                (old(self).level(id@) - 1) as nat
            } else {
                old(self).level(id@)
            },
            forall|other: IdView| other != id@ ==> final(self).level(other) == old(self).level(other),
            final(self).top == old(self).top,
            final(self).service == old(self).service,
            final(self).interested_caches == old(self).interested_caches,
    {
        let level: u64 = match self.shadow_levels.get(id) {
            Some(level) => level,
            None => 1,
        };
        if level > 1 {
            self.shadow_levels.insert(id.share(), level - 1);
            true
        } else {
            false
        }
    }
}

impl View for InstantiationRequest {
    type V = RequestView;

    open spec fn view(&self) -> RequestView {
        RequestView {
            top: self.top@,
            service: self.service@,
            shadow: self.level(self.service@),
            interested: self.interested_caches.set(),
        }
    }
}

impl ShadowGuard {
    pub fn new(guarded: ServiceId) -> (r: Self)
        ensures
            r.guarded == guarded,
    {
        ShadowGuard { guarded }
    }

    /// Lets `request` pass towards the chain, one level deeper if it asks for
    /// the guarded service.
    pub fn let_through(&self, request: &mut InstantiationRequest)
        requires
            old(request).wf(),
            old(request).level(old(request).service@) < u64::MAX,
        ensures
            final(request).wf(),
            final(request)@ == (RequestView {
                shadow: if old(request)@.service == self.guarded@ {
                    old(request)@.shadow + 1
                } else {
                    old(request)@.shadow
                },
                ..old(request)@
            }),
            final(request).service == old(request).service,
            final(request).top == old(request).top,
            final(request).interested_caches == old(request).interested_caches,
    {
        if self.guarded.same(&request.service) {
            request.increment_shadow(&self.guarded);
        }
    }
}

/// What a layer does with a request that reaches it.
pub enum Decision {
    /// Hands the request on; the answer of the layers below is the answer.
    Forward(InstantiationRequest),
    /// Hands the rewritten request on, and sends the answer to another cache.
    Redirect(InstantiationRequest),
    /// Hands the request on, and keeps the answer if it is destined here.
    Attend(InstantiationRequest),
    /// Answers by itself.
    Answer(InstantiationResponse),
    /// Has the instance constructed, the dependencies resolved behind this
    /// root.
    Construct(ResolutionRoot),
}

impl Decision {
    /// Whether this is `decision`, taken on a request that came in behind `top`.
    pub open spec fn denotes(&self, decision: DecisionView, top: Seq<IdView>) -> bool {
        match self {
            Decision::Forward(next) => next.wf() && decision == DecisionView::Forward(next@),
            Decision::Redirect(next) => next.wf() && decision == DecisionView::Redirect(next@),
            Decision::Attend(next) => next.wf() && decision == DecisionView::Attend(next@),
            Decision::Answer(response) => decision == DecisionView::Answer(response@),
            Decision::Construct(root) => decision is Construct && root@ == top,
        }
    }
}

} // verus!
