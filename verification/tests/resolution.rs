use ioc::{
    Binding, Cause, Container, Error, Instance, InstanceHandle, Lifecycle, Resolve, ServiceId,
};
use std::sync::atomic::{AtomicUsize, Ordering};
use std::sync::Arc;

/// A factory for the tests: what it does is said by its variant.
enum Make {
    /// Produces the text.
    Text(&'static str),
    /// Produces the text with the texts of the dependencies behind it.
    Join(&'static str),
    /// Fails with the text.
    Fail(&'static str),
    /// Fails on the first run, afterwards produces the number of the run.
    FailOnce(Arc<AtomicUsize>),
    /// Counts its runs and produces the number of the run.
    Count(Arc<AtomicUsize>),
}

fn text_of(handle: &InstanceHandle) -> String {
    handle.instance().0.downcast_ref::<Box<String>>().ok().unwrap().as_ref().clone()
}

impl Resolve for Make {
    fn resolve(&self, dependencies: Vec<InstanceHandle>) -> Result<Instance, String> {
        match self {
            Make::Text(text) => Ok(Instance(Arc::new(Box::new(text.to_string())))),
            Make::Join(text) => {
                let mut joined = text.to_string();
                for dependency in &dependencies {
                    joined.push('+');
                    joined.push_str(&text_of(dependency));
                }
                Ok(Instance(Arc::new(Box::new(joined))))
            }
            Make::Fail(text) => Err(text.to_string()),
            Make::FailOnce(runs) => {
                let run = runs.fetch_add(1, Ordering::SeqCst);
                if run == 0 {
                    Err("first run".to_string())
                } else {
                    Ok(Instance(Arc::new(Box::new(format!("run {}", run)))))
                }
            }
            Make::Count(runs) => {
                let run = runs.fetch_add(1, Ordering::SeqCst);
                Ok(Instance(Arc::new(Box::new(format!("run {}", run)))))
            }
        }
    }
}

fn id(name: &str) -> ServiceId {
    ServiceId::named(name)
}

fn not_found_name(error: &Error) -> Option<String> {
    match error {
        Error::ServiceNotFound(inner) => Some(inner.service_name.service.clone()),
        _ => None,
    }
}

#[test]
fn empty_container_finds_nothing() {
    let mut container: Container<Make> = Container::new();
    let error = container.resolve(&id("Logger")).err().unwrap();
    assert_eq!(not_found_name(&error), Some("Logger".to_string()));
    assert_eq!(container.len(), 0);
    assert_eq!(container.issued(), 0);
}

#[test]
fn later_binding_is_asked_first() {
    let mut container = Container::new()
        .with_transient(id("Greeting"), Make::Text("old"))
        .with_transient(id("Greeting"), Make::Text("new"));
    let handle = container.resolve(&id("Greeting")).ok().unwrap();
    assert_eq!(text_of(&handle), "new");
}

#[test]
fn variants_of_a_service_are_bound_apart() {
    let mut container = Container::new()
        .with_transient(ServiceId::new("Store".to_string(), "Disk".to_string()), Make::Text("disk"))
        .with_transient(ServiceId::new("Store".to_string(), "Memory".to_string()), Make::Text("memory"));
    let disk = container
        .resolve(&ServiceId::new("Store".to_string(), "Disk".to_string()))
        .ok()
        .unwrap();
    assert_eq!(text_of(&disk), "disk");
    let error = container.resolve(&id("Store")).err().unwrap();
    assert!(error.is_not_found());
    assert_eq!(error.service().variant, "Main");
}

#[test]
fn dependencies_are_handed_over_in_order() {
    let mut container = Container::new()
        .with_transient(id("A"), Make::Text("a"))
        .with_transient(id("B"), Make::Text("b"))
        .with_binding(
            Binding::new(id("C"), Lifecycle::Transient, Make::Join("c"))
                .depending_on(id("B"))
                .depending_on(id("A"))
                .depending_on(id("B")),
        );
    let handle = container.resolve(&id("C")).ok().unwrap();
    assert_eq!(text_of(&handle), "c+b+a+b");
}

#[test]
fn serial_numbers_count_the_constructions_started() {
    let mut container = Container::new()
        .with_transient(id("A"), Make::Text("a"))
        .with_binding(Binding::new(id("C"), Lifecycle::Transient, Make::Join("c")).depending_on(id("A")));
    let first = container.resolve(&id("C")).ok().unwrap();
    assert_eq!(first.serial(), 0);
    assert_eq!(container.issued(), 2);
    let second = container.resolve(&id("A")).ok().unwrap();
    assert_eq!(second.serial(), 2);
    assert_eq!(container.issued(), 3);
}

#[test]
fn factory_failure_is_a_creation_error() {
    let mut container = Container::new().with_singleton(id("Db"), Make::Fail("no disk"));
    match container.resolve(&id("Db")).err().unwrap() {
        Error::CreationError(error) => {
            assert_eq!(error.service_name.service, "Db");
            match error.creation_error {
                Cause::Factory(message) => assert_eq!(message, "no disk"),
                _ => panic!("expected the factory's message"),
            }
        }
        _ => panic!("expected CreationError"),
    }
}

#[test]
fn failed_singleton_is_tried_again() {
    let runs = Arc::new(AtomicUsize::new(0));
    let mut container = Container::new().with_singleton(id("Db"), Make::FailOnce(runs.clone()));
    assert!(container.resolve(&id("Db")).is_err());
    let second = container.resolve(&id("Db")).ok().unwrap();
    assert_eq!(text_of(&second), "run 1");
    let third = container.resolve(&id("Db")).ok().unwrap();
    assert!(second.same_instance(&third));
    assert_eq!(runs.load(Ordering::SeqCst), 2);
}

#[test]
fn first_failing_dependency_ends_the_construction() {
    let runs = Arc::new(AtomicUsize::new(0));
    let mut container = Container::new()
        .with_transient(id("Bad"), Make::Fail("broken"))
        .with_transient(id("Good"), Make::Count(runs.clone()))
        .with_binding(
            Binding::new(id("App"), Lifecycle::Transient, Make::Join("app"))
                .depending_on(id("Bad"))
                .depending_on(id("Good")),
        );
    match container.resolve(&id("App")).err().unwrap() {
        Error::CreationError(error) => {
            assert_eq!(error.service_name.service, "App");
            match error.creation_error {
                Cause::Dependency(inner) => match *inner {
                    Error::CreationError(bad) => {
                        assert_eq!(bad.service_name.service, "Bad");
                        match bad.creation_error {
                            Cause::Factory(message) => assert_eq!(message, "broken"),
                            _ => panic!("expected the factory's message"),
                        }
                    }
                    _ => panic!("expected the failure of Bad"),
                },
                _ => panic!("expected a failed dependency"),
            }
        }
        _ => panic!("expected CreationError"),
    }
    assert_eq!(runs.load(Ordering::SeqCst), 0);
}

#[test]
fn self_dependency_gets_the_earlier_binding() {
    let mut container = Container::new()
        .with_transient(id("Log"), Make::Text("plain"))
        .with_binding(
            Binding::new(id("Log"), Lifecycle::Transient, Make::Join("decorated"))
                .depending_on(id("Log")),
        );
    let handle = container.resolve(&id("Log")).ok().unwrap();
    assert_eq!(text_of(&handle), "decorated+plain");
}

#[test]
fn self_dependency_through_three_bindings() {
    let mut container = Container::new()
        .with_transient(id("Log"), Make::Text("one"))
        .with_binding(Binding::new(id("Log"), Lifecycle::Transient, Make::Join("two")).depending_on(id("Log")))
        .with_binding(Binding::new(id("Log"), Lifecycle::Transient, Make::Join("three")).depending_on(id("Log")));
    let handle = container.resolve(&id("Log")).ok().unwrap();
    assert_eq!(text_of(&handle), "three+two+one");
}

#[test]
fn self_dependency_without_earlier_binding_is_not_found() {
    let mut container = Container::new().with_binding(
        Binding::new(id("Log"), Lifecycle::Singleton, Make::Join("alone")).depending_on(id("Log")),
    );
    match container.resolve(&id("Log")).err().unwrap() {
        Error::CreationError(error) => {
            assert_eq!(error.service_name.service, "Log");
            match error.creation_error {
                Cause::Dependency(inner) => {
                    assert_eq!(not_found_name(&inner), Some("Log".to_string()))
                }
                _ => panic!("expected a failed dependency"),
            }
        }
        _ => panic!("expected CreationError"),
    }
}

#[test]
fn two_services_that_depend_on_each_other_fail() {
    let mut container = Container::new()
        .with_binding(Binding::new(id("A"), Lifecycle::Singleton, Make::Join("a")).depending_on(id("B")))
        .with_binding(Binding::new(id("B"), Lifecycle::Singleton, Make::Join("b")).depending_on(id("A")));
    match container.resolve(&id("A")).err().unwrap() {
        Error::CreationError(error) => {
            assert_eq!(error.service_name.service, "A");
            match error.creation_error {
                Cause::Dependency(inner) => match *inner {
                    Error::CreationError(b) => {
                        assert_eq!(b.service_name.service, "B");
                        match b.creation_error {
                            Cause::Dependency(innermost) => {
                                assert_eq!(not_found_name(&innermost), Some("A".to_string()))
                            }
                            _ => panic!("expected a failed dependency"),
                        }
                    }
                    _ => panic!("expected the failure of B"),
                },
                _ => panic!("expected a failed dependency"),
            }
        }
        _ => panic!("expected CreationError"),
    }
}

#[test]
fn singleton_dependency_is_shared() {
    let runs = Arc::new(AtomicUsize::new(0));
    let mut container = Container::new()
        .with_singleton(id("Pool"), Make::Count(runs.clone()))
        .with_binding(Binding::new(id("X"), Lifecycle::Transient, Make::Join("x")).depending_on(id("Pool")))
        .with_binding(Binding::new(id("Y"), Lifecycle::Transient, Make::Join("y")).depending_on(id("Pool")));
    let x = container.resolve(&id("X")).ok().unwrap();
    let y = container.resolve(&id("Y")).ok().unwrap();
    assert_eq!(text_of(&x), "x+run 0");
    assert_eq!(text_of(&y), "y+run 0");
    assert_eq!(runs.load(Ordering::SeqCst), 1);
}

#[test]
fn container_without_serial_numbers_constructs_nothing() {
    let runs = Arc::new(AtomicUsize::new(0));
    let mut container = Container::numbering_from(ioc::model::SERIAL_LIMIT)
        .with_singleton(id("Logger"), Make::Count(runs.clone()));
    match container.resolve(&id("Logger")).err().unwrap() {
        Error::CreationError(error) => {
            assert_eq!(error.service_name.service, "Logger");
            assert!(matches!(error.creation_error, Cause::Exhausted));
        }
        _ => panic!("expected CreationError"),
    }
    assert_eq!(runs.load(Ordering::SeqCst), 0);
    assert_eq!(container.issued(), ioc::model::SERIAL_LIMIT);
}

#[test]
fn last_serial_number_is_given_to_the_outer_construction() {
    let runs = Arc::new(AtomicUsize::new(0));
    let mut container = Container::numbering_from(ioc::model::SERIAL_LIMIT - 1)
        .with_transient(id("Inner"), Make::Count(runs.clone()))
        .with_binding(
            Binding::new(id("Outer"), Lifecycle::Transient, Make::Join("outer"))
                .depending_on(id("Inner")),
        );
    match container.resolve(&id("Outer")).err().unwrap() {
        Error::CreationError(error) => {
            assert_eq!(error.service_name.service, "Outer");
            match error.creation_error {
                Cause::Dependency(inner) => match *inner {
                    Error::CreationError(failed) => {
                        assert_eq!(failed.service_name.service, "Inner");
                        assert!(matches!(failed.creation_error, Cause::Exhausted));
                    }
                    _ => panic!("expected the failure of Inner"),
                },
                _ => panic!("expected a failed dependency"),
            }
        }
        _ => panic!("expected CreationError"),
    }
    assert_eq!(runs.load(Ordering::SeqCst), 0);
    let mut fresh = Container::numbering_from(ioc::model::SERIAL_LIMIT - 1)
        .with_transient(id("Inner"), Make::Count(runs.clone()));
    let last = fresh.resolve(&id("Inner")).ok().unwrap();
    assert_eq!(last.serial(), ioc::model::SERIAL_LIMIT - 1);
    assert!(fresh.resolve(&id("Inner")).is_err());
}

#[test]
fn typed_resolution_checks_the_tag() {
    let mut container = Container::new().with_binding(
        Binding::new(id("Greeting"), Lifecycle::Singleton, Make::Text("hello"))
            .producing("Box<String>".to_string()),
    );
    let handle = container
        .resolve_typed(&id("Greeting"), &"Box<String>".to_string())
        .ok()
        .unwrap();
    assert_eq!(handle.type_tag(), "Box<String>");
    assert!(handle.is_type(&"Box<String>".to_string()));
    match container.resolve_typed(&id("Greeting"), &"Box<u32>".to_string()).err().unwrap() {
        Error::TypeMismatch(error) => {
            assert_eq!(error.service_name.service, "Greeting");
            assert_eq!(error.type_mismatch.expected, "Box<u32>");
            assert_eq!(error.type_mismatch.found, "Box<String>");
        }
        _ => panic!("expected TypeMismatch"),
    }
    let error = container.resolve_typed(&id("Other"), &"Box<String>".to_string()).err().unwrap();
    assert_eq!(not_found_name(&error), Some("Other".to_string()));
}

#[test]
fn optional_resolution_finds_nothing_for_an_unbound_service() {
    let mut container = Container::new()
        .with_transient(id("A"), Make::Text("a"))
        .with_transient(id("Bad"), Make::Fail("broken"))
        .with_binding(Binding::new(id("Needy"), Lifecycle::Transient, Make::Join("n")).depending_on(id("Gone")));
    assert_eq!(text_of(&container.resolve_optional(&id("A")).ok().unwrap().unwrap()), "a");
    assert!(container.resolve_optional(&id("Gone")).ok().unwrap().is_none());
    assert_eq!(container.issued(), 1);
    assert!(matches!(container.resolve_optional(&id("Bad")), Err(Error::CreationError(_))));
    assert!(matches!(container.resolve_optional(&id("Needy")), Err(Error::CreationError(_))));
}

#[test]
fn downcast_resolution_checks_the_instance() {
    let mut container = Container::new().with_singleton(id("Greeting"), Make::Text("hello"));
    let handle = container.resolve_as::<Box<String>>(&id("Greeting")).ok().unwrap();
    assert_eq!(text_of(&handle), "hello");
    match container.resolve_as::<Box<u32>>(&id("Greeting")).err().unwrap() {
        Error::TypeMismatch(error) => {
            assert_eq!(error.service_name.service, "Greeting");
            assert!(error.type_mismatch.expected.contains("u32"));
            assert!(error.type_mismatch.found.contains("String"));
        }
        _ => panic!("expected TypeMismatch"),
    }
    let error = container.resolve_as::<Box<String>>(&id("Other")).err().unwrap();
    assert_eq!(not_found_name(&error), Some("Other".to_string()));
    let again = container.resolve(&id("Greeting")).ok().unwrap();
    assert!(again.same_instance(&handle));
    let checked = again.downcast::<Box<String>>(&id("Greeting")).ok().unwrap();
    assert!(checked.same_instance(&handle));
}

#[test]
fn many_resolutions_of_a_singleton_are_one_instance() {
    let runs = Arc::new(AtomicUsize::new(0));
    let mut container = Container::new().with_singleton(id("Logger"), Make::Count(runs.clone()));
    let first = container.resolve(&id("Logger")).ok().unwrap();
    for _ in 0..20 {
        let next = container.resolve(&id("Logger")).ok().unwrap();
        assert!(first.same_instance(&next));
        assert!(Arc::ptr_eq(&first.instance().0, &next.instance().0));
    }
    assert_eq!(runs.load(Ordering::SeqCst), 1);
}

#[test]
fn many_resolutions_of_a_transient_are_many_instances() {
    let runs = Arc::new(AtomicUsize::new(0));
    let mut container = Container::new().with_transient(id("Conn"), Make::Count(runs.clone()));
    let mut serials: Vec<u64> = Vec::new();
    for _ in 0..20 {
        let next = container.resolve(&id("Conn")).ok().unwrap();
        assert!(!serials.contains(&next.serial()));
        serials.push(next.serial());
    }
    assert_eq!(runs.load(Ordering::SeqCst), 20);
}
