use ioc::{Binding, Container, Instance, InstanceHandle, Layer, Lifecycle, Resolve, ServiceId};
use std::sync::atomic::{AtomicUsize, Ordering};
use std::sync::Arc;

/// Counts its runs and produces the number of the run.
struct Counter {
    runs: Arc<AtomicUsize>,
}

impl Resolve for Counter {
    fn resolve(&self, _dependencies: Vec<InstanceHandle>) -> Result<Instance, String> {
        let run = self.runs.fetch_add(1, Ordering::SeqCst);
        Ok(Instance(Arc::new(Box::new(run))))
    }
}

fn counter(runs: &Arc<AtomicUsize>) -> Counter {
    Counter { runs: runs.clone() }
}

fn number_of(handle: &InstanceHandle) -> usize {
    **handle.instance().0.downcast_ref::<Box<usize>>().ok().unwrap()
}

fn id(name: &str) -> ServiceId {
    ServiceId::named(name)
}

fn kept(container: &Container<Counter>, index: usize, name: &str) -> Option<InstanceHandle> {
    match container.layer(index) {
        Some(Layer::NamedCache(cache)) => cache.get(&id(name)),
        _ => None,
    }
}

#[test]
fn cache_keeps_what_is_destined_for_it() {
    let runs = Arc::new(AtomicUsize::new(0));
    let mut container = Container::new()
        .with_binding(
            Binding::new(id("Conn"), Lifecycle::Transient, counter(&runs))
                .destined_for(Some("C".to_string())),
        )
        .with_cache("C".to_string());
    assert!(kept(&container, 1, "Conn").is_none());
    let first = container.resolve(&id("Conn")).ok().unwrap();
    assert_eq!(number_of(&first), 0);
    let stored = kept(&container, 1, "Conn").unwrap();
    assert!(stored.same_instance(&first));
    let second = container.resolve(&id("Conn")).ok().unwrap();
    assert!(second.same_instance(&first));
    assert_eq!(number_of(&second), 0);
    assert_eq!(runs.load(Ordering::SeqCst), 1);
}

#[test]
fn cache_passes_on_what_is_not_destined_for_it() {
    let runs = Arc::new(AtomicUsize::new(0));
    let mut container = Container::new()
        .with_binding(
            Binding::new(id("Conn"), Lifecycle::Transient, counter(&runs))
                .destined_for(Some("D".to_string())),
        )
        .with_transient(id("Plain"), counter(&runs))
        .with_cache("C".to_string());
    let first = container.resolve(&id("Conn")).ok().unwrap();
    let second = container.resolve(&id("Conn")).ok().unwrap();
    assert!(!first.same_instance(&second));
    let third = container.resolve(&id("Plain")).ok().unwrap();
    let fourth = container.resolve(&id("Plain")).ok().unwrap();
    assert!(!third.same_instance(&fourth));
    assert!(kept(&container, 2, "Conn").is_none());
    assert!(kept(&container, 2, "Plain").is_none());
    assert_eq!(runs.load(Ordering::SeqCst), 4);
}

#[test]
fn of_two_caches_of_one_name_only_the_upper_keeps() {
    let runs = Arc::new(AtomicUsize::new(0));
    let mut container = Container::new()
        .with_binding(
            Binding::new(id("Conn"), Lifecycle::Transient, counter(&runs))
                .destined_for(Some("C".to_string())),
        )
        .with_cache("C".to_string())
        .with_cache("C".to_string());
    let first = container.resolve(&id("Conn")).ok().unwrap();
    assert!(kept(&container, 1, "Conn").is_none());
    assert!(kept(&container, 2, "Conn").unwrap().same_instance(&first));
    let second = container.resolve(&id("Conn")).ok().unwrap();
    assert!(second.same_instance(&first));
    assert!(kept(&container, 1, "Conn").is_none());
    assert_eq!(runs.load(Ordering::SeqCst), 1);
}

#[test]
fn of_two_caches_of_different_names_the_named_one_keeps() {
    let runs = Arc::new(AtomicUsize::new(0));
    let mut container = Container::new()
        .with_binding(
            Binding::new(id("Conn"), Lifecycle::Transient, counter(&runs))
                .destined_for(Some("D".to_string())),
        )
        .with_cache("D".to_string())
        .with_cache("C".to_string());
    let first = container.resolve(&id("Conn")).ok().unwrap();
    assert!(kept(&container, 1, "Conn").unwrap().same_instance(&first));
    assert!(kept(&container, 2, "Conn").is_none());
    let second = container.resolve(&id("Conn")).ok().unwrap();
    assert!(second.same_instance(&first));
    assert_eq!(runs.load(Ordering::SeqCst), 1);

    let more = Arc::new(AtomicUsize::new(0));
    let mut other = Container::new()
        .with_binding(
            Binding::new(id("Conn"), Lifecycle::Transient, counter(&more))
                .destined_for(Some("C".to_string())),
        )
        .with_cache("D".to_string())
        .with_cache("C".to_string());
    let third = other.resolve(&id("Conn")).ok().unwrap();
    assert!(kept(&other, 1, "Conn").is_none());
    assert!(kept(&other, 2, "Conn").unwrap().same_instance(&third));
}

#[test]
fn cache_below_a_binding_is_not_asked() {
    let runs = Arc::new(AtomicUsize::new(0));
    let mut container = Container::new()
        .with_cache("C".to_string())
        .with_binding(
            Binding::new(id("Conn"), Lifecycle::Transient, counter(&runs))
                .destined_for(Some("C".to_string())),
        );
    let first = container.resolve(&id("Conn")).ok().unwrap();
    let second = container.resolve(&id("Conn")).ok().unwrap();
    assert!(!first.same_instance(&second));
    assert!(kept(&container, 0, "Conn").is_none());
    assert_eq!(runs.load(Ordering::SeqCst), 2);
}

#[test]
fn cached_singleton_is_one_instance() {
    let runs = Arc::new(AtomicUsize::new(0));
    let mut container = Container::new()
        .with_binding(
            Binding::new(id("Logger"), Lifecycle::Singleton, counter(&runs))
                .destined_for(Some("C".to_string())),
        )
        .with_cache("C".to_string());
    let first = container.resolve(&id("Logger")).ok().unwrap();
    let second = container.resolve(&id("Logger")).ok().unwrap();
    assert!(first.same_instance(&second));
    assert_eq!(runs.load(Ordering::SeqCst), 1);
}

#[test]
fn cache_does_not_keep_failures() {
    let runs = Arc::new(AtomicUsize::new(0));
    let mut container = Container::new()
        .with_transient(id("Conn"), counter(&runs))
        .with_cache("C".to_string());
    assert!(container.resolve(&id("Missing")).is_err());
    assert!(kept(&container, 1, "Missing").is_none());
    assert!(container.resolve(&id("Missing")).is_err());
}
