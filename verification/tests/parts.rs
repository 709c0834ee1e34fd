use ioc::assoc::{Assoc, KeySet};
use ioc::Decision;
use ioc::path::{Path, PathComponent};
use ioc::request::{InstantiationRequest, ResolutionRoot, ShadowGuard};
use ioc::request::InstantiationResponse;
use ioc::{
    cache_name_to_opt, Binding, Builder, Container, DefaultInstance, DefaultInstancer, Instance,
    InstanceHandle, InstancerNotFoundError, Layer, Lifecycle, Main, NamedCache, RedirectRules,
    Reflect, Resolve, Return, ServiceId,
};
use std::sync::Arc;

struct Say(&'static str);

impl Resolve for Say {
    fn resolve(&self, _dependencies: Vec<InstanceHandle>) -> Result<Instance, String> {
        Ok(Instance(Arc::new(Box::new(self.0.to_string()))))
    }
}

fn text_of(handle: &InstanceHandle) -> String {
    handle.instance().0.downcast_ref::<Box<String>>().ok().unwrap().as_ref().clone()
}

fn id(name: &str) -> ServiceId {
    ServiceId::named(name)
}

#[test]
fn return_names_no_cache() {
    assert_eq!(cache_name_to_opt("Return"), None);
    assert_eq!(cache_name_to_opt("C"), Some("C".to_string()));
    assert_eq!(cache_name_to_opt(""), Some(String::new()));
    assert_eq!(cache_name_to_opt("return"), Some("return".to_string()));
}

#[test]
fn well_known_names() {
    assert_eq!(Main::name_init(), "Main");
    assert_eq!(Return::name_init(), "Return");
    assert_eq!(DefaultInstancer::name_init(), "DefaultInstancer");
    assert_eq!(DefaultInstance::name_init(), "default");
    let logger = ServiceId::named("Logger");
    assert_eq!(logger.service, "Logger");
    assert_eq!(logger.variant, "Main");
    let other = ServiceId::new("Logger".to_string(), "File".to_string());
    assert_eq!(other.variant, "File");
}

#[test]
fn not_found_error_names_the_service() {
    let error = InstancerNotFoundError::new(id("Mailer"));
    assert_eq!(error.service_name.service, "Mailer");
}

#[test]
fn later_entry_for_a_key_wins() {
    let mut map: Assoc<String, String> = Assoc::new();
    assert!(map.get(&"a".to_string()).is_none());
    map.insert("a".to_string(), "1".to_string());
    map.insert("b".to_string(), "2".to_string());
    map.insert("a".to_string(), "3".to_string());
    assert_eq!(map.get(&"a".to_string()), Some("3".to_string()));
    assert_eq!(map.get(&"b".to_string()), Some("2".to_string()));
    assert!(map.contains(&"b".to_string()));
    assert!(!map.contains(&"c".to_string()));
}

#[test]
fn key_set_holds_what_was_put_in() {
    let mut set: KeySet<String> = KeySet::new();
    assert!(!set.contains(&"C".to_string()));
    set.insert("C".to_string());
    assert!(set.contains(&"C".to_string()));
    assert!(!set.contains(&"D".to_string()));
}

#[test]
fn request_starts_at_level_one() {
    let request = InstantiationRequest::new(ResolutionRoot::new(), id("A"));
    assert_eq!(request.shadow(), 1);
    assert_eq!(request.service.service, "A");
    assert!(!request.interested_caches.contains(&"C".to_string()));
}

#[test]
fn each_guard_of_the_service_adds_a_level() {
    let root = ResolutionRoot::new()
        .guarded_by(id("A"))
        .guarded_by(id("B"))
        .guarded_by(id("A"));
    assert_eq!(InstantiationRequest::new(root.share(), id("A")).shadow(), 3);
    assert_eq!(InstantiationRequest::new(root.share(), id("B")).shadow(), 2);
    assert_eq!(InstantiationRequest::new(root, id("C")).shadow(), 1);
}

#[test]
fn guard_marks_only_its_service() {
    let guard = ShadowGuard::new(id("A"));
    let mut request = InstantiationRequest::new(ResolutionRoot::new(), id("A"));
    guard.let_through(&mut request);
    assert_eq!(request.shadow(), 2);
    let mut other = InstantiationRequest::new(ResolutionRoot::new(), id("B"));
    guard.let_through(&mut other);
    assert_eq!(other.shadow(), 1);
}

#[test]
fn shadow_level_goes_up_and_down_to_one() {
    let mut request = InstantiationRequest::new(ResolutionRoot::new(), id("A"));
    assert!(!request.decrement_shadow(&id("A")));
    assert_eq!(request.shadow(), 1);
    request.increment_shadow(&id("A"));
    request.increment_shadow(&id("A"));
    assert_eq!(request.shadow(), 3);
    assert!(request.decrement_shadow(&id("A")));
    assert_eq!(request.shadow(), 2);
    assert!(request.decrement_shadow(&id("A")));
    assert!(!request.decrement_shadow(&id("A")));
    assert_eq!(request.shadow(), 1);
}

#[test]
fn interest_is_recorded() {
    let mut request = InstantiationRequest::new(ResolutionRoot::new(), id("A"));
    request.add_interest("C".to_string());
    assert!(request.interested_caches.contains(&"C".to_string()));
    assert!(!request.interested_caches.contains(&"D".to_string()));
    assert_eq!(request.shadow(), 1);
}

#[test]
fn binding_decides_by_service_and_level() {
    let container = Container::new().with_singleton(id("A"), Say("a"));
    let layer = container.layer(0).unwrap();
    let other = InstantiationRequest::new(ResolutionRoot::new(), id("B"));
    assert!(matches!(layer.decide(other), Decision::Forward(_)));
    let first = InstantiationRequest::new(ResolutionRoot::new(), id("A"));
    assert!(matches!(layer.decide(first), Decision::Construct(_)));
    let nested = InstantiationRequest::new(ResolutionRoot::new().guarded_by(id("A")), id("A"));
    match layer.decide(nested) {
        Decision::Forward(next) => assert_eq!(next.shadow(), 1),
        _ => panic!("expected the request to be handed on"),
    }
    assert!(container.layer(1).is_none());
}

#[test]
fn cache_decides_by_level_store_and_interest() {
    let container: Container<Say> = Container::new().with_cache("C".to_string());
    let layer = container.layer(0).unwrap();
    let first = InstantiationRequest::new(ResolutionRoot::new(), id("A"));
    match layer.decide(first) {
        Decision::Attend(next) => assert!(next.interested_caches.contains(&"C".to_string())),
        _ => panic!("expected the cache to attend"),
    }
    let mut seen = InstantiationRequest::new(ResolutionRoot::new(), id("A"));
    seen.add_interest("C".to_string());
    assert!(matches!(layer.decide(seen), Decision::Forward(_)));
    let nested = InstantiationRequest::new(ResolutionRoot::new().guarded_by(id("A")), id("A"));
    match layer.decide(nested) {
        Decision::Forward(next) => {
            assert_eq!(next.shadow(), 2);
            assert!(!next.interested_caches.contains(&"C".to_string()));
        }
        _ => panic!("expected the request to be handed on"),
    }
}

#[test]
fn rules_decide_by_level() {
    let rules = RedirectRules::new().service("A", "B");
    let first = InstantiationRequest::new(ResolutionRoot::new(), id("A"));
    match rules.decide(first) {
        Decision::Redirect(next) => {
            assert_eq!(next.service.service, "B");
            assert_eq!(next.shadow(), 1);
        }
        _ => panic!("expected the request to be rewritten"),
    }
    let nested = InstantiationRequest::new(ResolutionRoot::new().guarded_by(id("A")), id("A"));
    match rules.decide(nested) {
        Decision::Forward(next) => {
            assert_eq!(next.service.service, "A");
            assert_eq!(next.shadow(), 2);
        }
        _ => panic!("expected the request to be handed on"),
    }
}

#[test]
fn binding_wraps_and_keeps_what_its_factory_made() {
    let mut singleton = Binding::new(id("A"), Lifecycle::Singleton, Say("a"))
        .producing("Text".to_string())
        .destined_for(Some("C".to_string()));
    assert!(singleton.recall().is_none());
    let made = singleton.run(Vec::new()).ok().unwrap();
    let response = singleton.deliver(7, made);
    assert_eq!(response.instance.serial(), 7);
    assert_eq!(response.instance.type_tag(), "Text");
    assert_eq!(response.destined_cache, Some("C".to_string()));
    let recalled = singleton.recall().unwrap();
    assert!(recalled.instance.same_instance(&response.instance));
    assert_eq!(recalled.destined_cache, Some("C".to_string()));
    let request = InstantiationRequest::new(ResolutionRoot::new(), id("A"));
    assert!(matches!(singleton.decide(request), Decision::Answer(_)));

    let mut transient = Binding::new(id("B"), Lifecycle::Transient, Say("b")).depending_on(id("A"));
    let made = transient.run(Vec::new()).ok().unwrap();
    let response = transient.deliver(8, made);
    assert_eq!(response.instance.serial(), 8);
    assert_eq!(response.destined_cache, None);
    assert!(transient.recall().is_none());
    let (service, dependencies) = transient.recipe();
    assert_eq!(service.service, "B");
    assert_eq!(dependencies.len(), 1);
    assert_eq!(dependencies[0].service, "A");
}

#[test]
fn cache_keeps_only_what_is_destined_for_it_and_only_the_first() {
    let mut binding = Binding::new(id("A"), Lifecycle::Transient, Say("a"));
    let first = binding.deliver(1, binding.run(Vec::new()).ok().unwrap()).instance;
    let second = binding.deliver(2, binding.run(Vec::new()).ok().unwrap()).instance;
    let mut cache = NamedCache::new("C".to_string());
    assert_eq!(cache.name(), "C");

    let other = cache.absorb(id("A"), InstantiationResponse::new(first.share_handle(), Some("D".to_string())));
    assert_eq!(other.destined_cache, Some("D".to_string()));
    assert!(cache.get(&id("A")).is_none());
    let none = cache.absorb(id("A"), InstantiationResponse::new(first.share_handle(), None));
    assert_eq!(none.destined_cache, None);
    assert!(cache.get(&id("A")).is_none());

    let mine = cache.absorb(id("A"), InstantiationResponse::new(first.share_handle(), Some("C".to_string())));
    assert_eq!(mine.destined_cache, None);
    assert!(mine.instance.same_instance(&first));
    assert!(cache.get(&id("A")).unwrap().same_instance(&first));

    let late = cache.absorb(id("A"), InstantiationResponse::new(second.share_handle(), Some("C".to_string())));
    assert!(late.instance.same_instance(&second));
    assert!(cache.get(&id("A")).unwrap().same_instance(&first));

    cache.insert_new(id("B"), second.share_handle());
    cache.insert_new(id("B"), first.share_handle());
    assert!(cache.get(&id("B")).unwrap().same_instance(&second));
    let request = InstantiationRequest::new(ResolutionRoot::new(), id("B"));
    match cache.decide(request) {
        Decision::Answer(response) => {
            assert!(response.instance.same_instance(&second));
            assert_eq!(response.destined_cache, None);
        }
        _ => panic!("expected the cache to answer"),
    }
}

#[test]
fn path_starts_with_a_persistent_root() {
    let path = Path::new("Root".to_string());
    assert!(path.is_root());
    assert!(path.is_persistent());
    assert!(!path.is_transient());
    assert_eq!(path.len(), 1);
}

#[test]
fn path_grows_by_components() {
    let mut path = Path::new("Root".to_string());
    path.push(PathComponent::Transient(None));
    assert!(!path.is_root());
    assert!(path.is_transient());
    assert!(!path.is_persistent());
    path.push(PathComponent::Persistent("Nested".to_string()));
    assert!(path.is_persistent());
    path.push(PathComponent::Persistent("Deeper".to_string()));
    path.push(PathComponent::Transient(Some("request".to_string())));
    assert!(path.is_transient());
    assert_eq!(path.len(), 5);
    assert!(matches!(path.last(), PathComponent::Transient(Some(_))));
}

#[test]
fn transient_may_not_follow_transient() {
    let persistent = PathComponent::Persistent("P".to_string());
    let transient = PathComponent::Transient(None);
    let named = PathComponent::Transient(Some("T".to_string()));
    assert!(persistent.may_follow(&persistent));
    assert!(persistent.may_follow(&transient));
    assert!(transient.may_follow(&persistent));
    assert!(!transient.may_follow(&named));
    assert!(!named.may_follow(&transient));
}

#[test]
fn builder_binds_variants_of_services() {
    let mut container = Builder::root()
        .repository_builder("Store")
        .set_instancer_fn("Disk", Say("disk"), Lifecycle::Transient)
        .default(Say("default store"), Lifecycle::Singleton)
        .exit()
        .repository_builder("Clock")
        .default_object(Say("clock"))
        .exit()
        .build();
    assert_eq!(container.len(), 3);
    let disk = container
        .resolve(&ServiceId::new("Store".to_string(), "Disk".to_string()))
        .ok()
        .unwrap();
    assert_eq!(text_of(&disk), "disk");
    let default = ServiceId::new("Store".to_string(), "DefaultInstancer".to_string());
    let first = container.resolve(&default).ok().unwrap();
    let second = container.resolve(&default).ok().unwrap();
    assert_eq!(text_of(&first), "default store");
    assert!(first.same_instance(&second));
    let clock = ServiceId::new("Clock".to_string(), "DefaultInstancer".to_string());
    let one = container.resolve(&clock).ok().unwrap();
    let other = container.resolve(&clock).ok().unwrap();
    assert!(one.same_instance(&other));
    assert!(container.resolve(&id("Store")).is_err());
}

#[test]
fn builder_wraps_a_container() {
    let container = Container::new().with_transient(id("A"), Say("a"));
    let builder = Builder::new(container);
    let repository = builder.repository_builder("B");
    assert_eq!(repository.name, "B");
    let mut built = repository.exit().build();
    assert_eq!(built.len(), 1);
    assert_eq!(text_of(&built.resolve(&id("A")).ok().unwrap()), "a");
    assert!(matches!(built.layer(0), Some(Layer::Binding(_))));
}
