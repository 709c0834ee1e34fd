//! A named cache: instances kept by the service they were requested as.
use crate::assoc::{Assoc, Share};
use crate::handle::{HandleView, InstanceHandle};
use crate::names::{IdView, ServiceId};
use crate::request::{Decision, InstantiationRequest, InstantiationResponse, ResponseView};
use vstd::prelude::*;

verus! {

/// What a named cache denotes.
pub struct CacheView {
    pub name: Seq<char>,
    pub store: Map<IdView, HandleView>,
}

impl CacheView {
    /// The cache with `handle` kept for `key`, unless something is kept for
    /// it already.
    pub open spec fn kept(self, key: IdView, handle: HandleView) -> CacheView {
        if self.store.contains_key(key) {
            self
        } else {
            CacheView { store: self.store.insert(key, handle), ..self }
        }
    }
}

/// A cache tier. Entries are added, never replaced or removed.
pub struct NamedCache {
    pub(crate) name: String,
    pub(crate) store: Assoc<ServiceId, InstanceHandle>,
}

impl View for NamedCache {
    type V = CacheView;

    closed spec fn view(&self) -> CacheView {
        CacheView { name: self.name@, store: self.store.map() }
    }
}

impl NamedCache {
    /// An empty cache of the given name.
    pub fn new(name: String) -> (r: Self)
        ensures
            r@ == (CacheView { name: name@, store: Map::empty() }),
    {
        NamedCache { name, store: Assoc::new() }
    }

    pub fn name(&self) -> (r: &String)
        ensures
            r@ == self@.name,
    {
        &self.name
    }

    /// The instance kept for `key`, if there is one.
    pub fn get(&self, key: &ServiceId) -> (r: Option<InstanceHandle>)
        ensures
            r.is_some() == self@.store.contains_key(key@),
            r matches Some(handle) ==> handle@ == self@.store[key@],
    {
        self.store.get(key)
    }

    /// What the cache does with `request`.
    pub fn decide(&self, request: InstantiationRequest) -> (decision: Decision)
        requires
            request.wf(),
        ensures
            decision.denotes(self@.decide(request@), request@.top),
    {
        if request.shadow() > 1 {
            return Decision::Forward(request);
        }
        match self.get(&request.service) {
            Some(kept) => Decision::Answer(InstantiationResponse::new(kept, None)),
            None => {
                if request.interested_caches.contains(&self.name) {
                    Decision::Forward(request)
                } else {
                    let mut next = request;
                    next.add_interest(self.name.clone());
                    Decision::Attend(next)
                }
            },
        }
    }

    /// Keeps the instance of `response` to a request for `key` if the
    /// response is destined for this cache, and then clears the destination.
    pub fn absorb(&mut self, key: ServiceId, response: InstantiationResponse) -> (r:
        InstantiationResponse)
        ensures
            r@ == if response@.destined == Some(old(self)@.name) {
                ResponseView { destined: None, ..response@ }
            } else {
                response@
            },
            final(self)@ == if response@.destined == Some(old(self)@.name) {
                old(self)@.kept(key@, response@.handle)
            } else {
                old(self)@
            },
    {
        let mine = match &response.destined_cache {
            Some(name) => *name == self.name,
            None => false,
        };
        if mine {
            self.insert_new(key, response.instance.share());
            InstantiationResponse::new(response.instance, None)
        } else {
            response
        }
    }

    /// Keeps `handle` for `key` unless an instance is kept for it already.
    pub fn insert_new(&mut self, key: ServiceId, handle: InstanceHandle)
        ensures
            final(self)@ == old(self)@.kept(key@, handle@),
    {
        if !self.store.contains(&key) {
            self.store.insert(key, handle);
        }
    }
}

} // verus!
