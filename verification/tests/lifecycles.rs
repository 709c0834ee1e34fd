use ioc::{Container, Error, Instance, InstanceHandle, Resolve, ServiceId};
use std::sync::atomic::{AtomicUsize, Ordering};
use std::sync::Arc;

/// Counts its runs and produces the number of the run.
struct Counting {
    runs: Arc<AtomicUsize>,
}

impl Resolve for Counting {
    fn resolve(&self, _dependencies: Vec<InstanceHandle>) -> Result<Instance, String> {
        let run = self.runs.fetch_add(1, Ordering::SeqCst);
        Ok(Instance(Arc::new(Box::new(run))))
    }
}

#[test]
fn singleton_is_constructed_once() {
    let runs = Arc::new(AtomicUsize::new(0));
    let mut container = Container::new()
        .with_singleton(ServiceId::named("Logger"), Counting { runs: runs.clone() });
    let first = container.resolve(&ServiceId::named("Logger")).ok().unwrap();
    let second = container.resolve(&ServiceId::named("Logger")).ok().unwrap();
    assert_eq!(runs.load(Ordering::SeqCst), 1);
    assert!(first.same_instance(&second));
    assert!(Arc::ptr_eq(&first.instance().0, &second.instance().0));
}

#[test]
fn transient_is_constructed_every_time() {
    let runs = Arc::new(AtomicUsize::new(0));
    let mut container = Container::new()
        .with_transient(ServiceId::named("Conn"), Counting { runs: runs.clone() });
    let first = container.resolve(&ServiceId::named("Conn")).ok().unwrap();
    let second = container.resolve(&ServiceId::named("Conn")).ok().unwrap();
    assert_eq!(runs.load(Ordering::SeqCst), 2);
    assert!(!first.same_instance(&second));
    assert!(!Arc::ptr_eq(&first.instance().0, &second.instance().0));
}

#[test]
fn unbound_service_is_not_found() {
    let runs = Arc::new(AtomicUsize::new(0));
    let mut container = Container::new()
        .with_singleton(ServiceId::named("Logger"), Counting { runs: runs.clone() });
    match container.resolve(&ServiceId::named("Mailer")) {
        Err(Error::ServiceNotFound(error)) => {
            assert_eq!(error.service_name.service, "Mailer");
            assert_eq!(error.service_name.variant, "Main");
        }
        _ => panic!("expected ServiceNotFound"),
    }
    assert_eq!(runs.load(Ordering::SeqCst), 0);
}
