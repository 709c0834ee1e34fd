use ioc::{
    Binding, Cause, Container, Error, Instance, InstanceHandle, Layer, Lifecycle, RedirectRules,
    Resolve, ServiceId,
};
use std::sync::Arc;

/// Produces its text, with the texts of the dependencies behind it.
struct Say(&'static str);

fn text_of(handle: &InstanceHandle) -> String {
    handle.instance().0.downcast_ref::<Box<String>>().ok().unwrap().as_ref().clone()
}

impl Resolve for Say {
    fn resolve(&self, dependencies: Vec<InstanceHandle>) -> Result<Instance, String> {
        let mut said = self.0.to_string();
        for dependency in &dependencies {
            said.push('+');
            said.push_str(&text_of(dependency));
        }
        Ok(Instance(Arc::new(Box::new(said))))
    }
}

fn id(name: &str) -> ServiceId {
    ServiceId::named(name)
}

fn kept(container: &Container<Say>, index: usize, name: &str) -> Option<InstanceHandle> {
    match container.layer(index) {
        Some(Layer::NamedCache(cache)) => cache.get(&id(name)),
        _ => None,
    }
}

#[test]
fn redirected_service_is_the_target() {
    let mut container = Container::new()
        .with_singleton(id("B"), Say("b"))
        .with_redirects(RedirectRules::new().service("A", "B"));
    let through = container.resolve(&id("A")).ok().unwrap();
    let direct = container.resolve(&id("B")).ok().unwrap();
    assert_eq!(text_of(&through), "b");
    assert!(through.same_instance(&direct));
}

#[test]
fn redirected_service_that_is_unbound_is_not_found_as_the_target() {
    let mut container = Container::new()
        .with_singleton(id("C"), Say("c"))
        .with_redirects(RedirectRules::new().service("A", "B"));
    match container.resolve(&id("A")).err().unwrap() {
        Error::ServiceNotFound(error) => assert_eq!(error.service_name.service, "B"),
        _ => panic!("expected ServiceNotFound"),
    }
}

#[test]
fn rules_are_applied_once() {
    let mut container = Container::new()
        .with_transient(id("B"), Say("b"))
        .with_transient(id("C"), Say("c"))
        .with_redirects(RedirectRules::new().service("A", "B").service("B", "C"));
    assert_eq!(text_of(&container.resolve(&id("A")).ok().unwrap()), "b");
    assert_eq!(text_of(&container.resolve(&id("B")).ok().unwrap()), "c");
    assert_eq!(text_of(&container.resolve(&id("C")).ok().unwrap()), "c");
}

#[test]
fn later_rule_for_a_service_replaces_the_earlier() {
    let mut container = Container::new()
        .with_transient(id("B"), Say("b"))
        .with_transient(id("C"), Say("c"))
        .with_redirects(RedirectRules::new().service("A", "B").service("A", "C"));
    assert_eq!(text_of(&container.resolve(&id("A")).ok().unwrap()), "c");
}

#[test]
fn variant_is_redirected() {
    let fast = ServiceId::new("Store".to_string(), "Fast".to_string());
    let mut container = Container::new()
        .with_transient(fast, Say("fast store"))
        .with_redirects(RedirectRules::new().alternative("Main", "Fast"));
    assert_eq!(text_of(&container.resolve(&id("Store")).ok().unwrap()), "fast store");
}

#[test]
fn redirect_below_a_binding_is_not_reached() {
    let mut container = Container::new()
        .with_transient(id("B"), Say("b"))
        .with_redirects(RedirectRules::new().service("A", "B"))
        .with_transient(id("A"), Say("a"));
    assert_eq!(text_of(&container.resolve(&id("A")).ok().unwrap()), "a");
}

#[test]
fn destination_is_redirected_to_another_cache() {
    let mut container = Container::new()
        .with_binding(
            Binding::new(id("Conn"), Lifecycle::Transient, Say("conn"))
                .destined_for(Some("C".to_string())),
        )
        .with_redirects(RedirectRules::new().for_cache("C", "D"))
        .with_cache("C".to_string())
        .with_cache("D".to_string());
    let first = container.resolve(&id("Conn")).ok().unwrap();
    assert!(kept(&container, 2, "Conn").is_none());
    assert!(kept(&container, 3, "Conn").unwrap().same_instance(&first));
}

#[test]
fn destination_is_redirected_to_no_cache() {
    let mut container = Container::new()
        .with_binding(
            Binding::new(id("Conn"), Lifecycle::Transient, Say("conn"))
                .destined_for(Some("C".to_string())),
        )
        .with_redirects(RedirectRules::new().for_cache("C", "Return"))
        .with_cache("C".to_string());
    let first = container.resolve(&id("Conn")).ok().unwrap();
    let second = container.resolve(&id("Conn")).ok().unwrap();
    assert!(!first.same_instance(&second));
    assert!(kept(&container, 2, "Conn").is_none());
}

#[test]
fn no_destination_is_redirected_to_a_cache() {
    let mut container = Container::new()
        .with_transient(id("Conn"), Say("conn"))
        .with_redirects(RedirectRules::new().for_cache("Return", "C"))
        .with_cache("C".to_string());
    let first = container.resolve(&id("Conn")).ok().unwrap();
    let second = container.resolve(&id("Conn")).ok().unwrap();
    assert!(first.same_instance(&second));
    assert!(kept(&container, 2, "Conn").unwrap().same_instance(&first));
}

#[test]
fn redirect_is_skipped_for_a_service_under_construction() {
    let mut container = Container::new()
        .with_transient(id("Z"), Say("z"))
        .with_binding(Binding::new(id("A"), Lifecycle::Transient, Say("a")).depending_on(id("A")))
        .with_redirects(RedirectRules::new().service("X", "A").service("A", "Z"));
    assert_eq!(text_of(&container.resolve(&id("A")).ok().unwrap()), "z");
    match container.resolve(&id("X")).err().unwrap() {
        Error::CreationError(error) => {
            assert_eq!(error.service_name.service, "A");
            match error.creation_error {
                Cause::Dependency(inner) => match *inner {
                    Error::ServiceNotFound(missing) => {
                        assert_eq!(missing.service_name.service, "A")
                    }
                    _ => panic!("expected ServiceNotFound"),
                },
                _ => panic!("expected a failed dependency"),
            }
        }
        _ => panic!("expected CreationError"),
    }
}

#[test]
fn rules_rewrite_identifiers_and_destinations() {
    let rules = RedirectRules::new()
        .service("A", "B")
        .alternative("Main", "Fast")
        .for_cache("C", "D")
        .for_cache("E", "Return");
    let moved = rules.redirect(&id("A"));
    assert_eq!(moved.service, "B");
    assert_eq!(moved.variant, "Fast");
    let same = rules.redirect(&ServiceId::new("Q".to_string(), "Slow".to_string()));
    assert_eq!(same.service, "Q");
    assert_eq!(same.variant, "Slow");
    assert_eq!(rules.redirect_cache(Some("C".to_string())), Some("D".to_string()));
    assert_eq!(rules.redirect_cache(Some("E".to_string())), None);
    assert_eq!(rules.redirect_cache(Some("F".to_string())), Some("F".to_string()));
    assert_eq!(rules.redirect_cache(None), None);
}
