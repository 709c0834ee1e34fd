//! Redirect rules: a fixed rewriting of what is asked for and of where the
//! answer may be kept.
use crate::assoc::Assoc;
use crate::names::{cache_name_to_opt, IdView, ServiceId};
use crate::request::{Decision, InstantiationRequest, InstantiationResponse, ResponseView};
use vstd::prelude::*;

verus! {

/// What a set of rules denotes. `None` among the caches stands for no cache.
pub struct RulesView {
    pub services: Map<Seq<char>, Seq<char>>,
    pub variants: Map<Seq<char>, Seq<char>>,
    pub caches: Map<Option<Seq<char>>, Option<Seq<char>>>,
}

impl RulesView {
    /// Where a request for `id` is sent: each part by its rule, or unchanged.
    pub open spec fn target(self, id: IdView) -> IdView {
        IdView {
            service: if self.services.contains_key(id.service) {
                self.services[id.service]
            } else {
                id.service
            },
            variant: if self.variants.contains_key(id.variant) {
                self.variants[id.variant]
            } else {
                id.variant
            },
        }
    }

    /// The cache that an answer destined for `destined` is sent to instead.
    pub open spec fn cache_target(self, destined: Option<Seq<char>>) -> Option<Seq<char>> {
        if self.caches.contains_key(destined) {
            self.caches[destined]
        } else {
            destined
        }
    }

    /// Whether a request for `id` is sent elsewhere.
    pub open spec fn moves(self, id: IdView) -> bool {
        self.target(id) != id
    }
}

/// Three mappings: of service names, of variant names and of cache names.
pub struct RedirectRules {
    pub services: Assoc<String, String>,
    pub variants: Assoc<String, String>,
    pub caches: Assoc<Option<String>, Option<String>>,
}

impl View for RedirectRules {
    type V = RulesView;

    open spec fn view(&self) -> RulesView {
        RulesView {
            services: self.services.map(),
            variants: self.variants.map(),
            caches: self.caches.map(),
        }
    }
}

impl RedirectRules {
    /// No rule at all.
    pub fn new() -> (r: Self)
        ensures
            r@.services == Map::<Seq<char>, Seq<char>>::empty(),
            r@.variants == Map::<Seq<char>, Seq<char>>::empty(),
            r@.caches == Map::<Option<Seq<char>>, Option<Seq<char>>>::empty(),
    {
        RedirectRules { services: Assoc::new(), variants: Assoc::new(), caches: Assoc::new() }
    }

    /// With requests for the service `from` sent to `to`.
    pub fn service(self, from: &str, to: &str) -> (r: Self)
        ensures
            r@ == (RulesView { services: self@.services.insert(from@, to@), ..self@ }),
    {
        let mut rules = self;
        rules.services.insert(from.to_owned(), to.to_owned());
        rules
    }

    /// With requests for the variant `from` sent to `to`.
    pub fn alternative(self, from: &str, to: &str) -> (r: Self)
        ensures
            r@ == (RulesView { variants: self@.variants.insert(from@, to@), ..self@ }),
    {
        let mut rules = self;
        rules.variants.insert(from.to_owned(), to.to_owned());
        rules
    }

    /// With answers destined for the cache `from` sent to `to`; either may be
    /// the name of `Return`, which stands for no cache.
    pub fn for_cache(self, from: &str, to: &str) -> (r: Self)
        ensures
            r@ == (RulesView {
                caches: self@.caches.insert(
                    if from@ == "Return"@ {
                        None
                    } else {
                        Some(from@)
                    },
                    if to@ == "Return"@ {
                        None
                    } else {
                        Some(to@)
                    },
                ),
                ..self@
            }),
    {
        let mut rules = self;
        rules.caches.insert(cache_name_to_opt(from), cache_name_to_opt(to));
        rules
    }

    /// Where a request for `id` is sent.
    pub fn redirect(&self, id: &ServiceId) -> (r: ServiceId)
        ensures
            r@ == self@.target(id@),
    {
        let service = match self.services.get(&id.service) {
            Some(to) => to,
            None => id.service.clone(),
        };
        let variant = match self.variants.get(&id.variant) {
            Some(to) => to,
            None => id.variant.clone(),
        };
        ServiceId { service, variant }
    }

    /// The cache that an answer destined for `destined` is sent to instead.
    pub fn redirect_cache(&self, destined: Option<String>) -> (r: Option<String>)
        ensures
            r.deep_view() == self@.cache_target(destined.deep_view()),
    {
        match self.caches.get(&destined) {
            Some(to) => to,
            None => destined,
        }
    }

    /// What a layer of these rules does with `request`.
    pub fn decide(&self, request: InstantiationRequest) -> (decision: Decision)
        requires
            request.wf(),
        ensures
            decision.denotes(self@.decide(request@), request@.top),
    {
        let mut next = request;
        if self.rewrite_request(&mut next) {
            Decision::Redirect(next)
        } else {
            Decision::Forward(next)
        }
    }

    /// Rewrites `request` on its way down, unless its service is being
    /// constructed further up; says whether it did.
    pub fn rewrite_request(&self, request: &mut InstantiationRequest) -> (applied: bool)
        requires
            old(request).wf(),
        ensures
            final(request).wf(),
            applied == (old(request)@.shadow <= 1),
            final(request)@ == if applied {
                old(request)@.redirected(self@.target(old(request)@.service))
            } else {
                old(request)@
            },
    {
        let level: u64 = match request.shadow_levels.get(&request.service) {
            Some(level) => level,
            None => 1,
        };
        if level > 1 {
            return false;
        }
        let ghost before = *request;
        let target = self.redirect(&request.service);
        request.service = target;
        proof {
            assert(before.wf());
            assert(before.level(before.service@) == 1);
            assert(before.level(target@) == 1);
            assert(forall|id: IdView| request.level(id) == before.level(id));
            assert forall|id: IdView| id != request.service@ implies request.level(id) == 1 by {
                assert(request.level(id) == before.level(id));
            }
        }
        true
    }

    /// Rewrites the destination of `response` on its way back.
    pub fn rewrite_response(&self, response: InstantiationResponse) -> (r: InstantiationResponse)
        ensures
            r@ == (ResponseView {
                destined: self@.cache_target(response@.destined),
                ..response@
            }),
    {
        let InstantiationResponse { instance, destined_cache } = response;
        InstantiationResponse { instance, destined_cache: self.redirect_cache(destined_cache) }
    }
}

} // verus!
