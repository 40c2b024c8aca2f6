use std::cell::RefCell;
use std::collections::VecDeque;

use walgit_store::notify::announce::{text_ends_with, NotifyingStore, Written};
use walgit_store::notify::endpoint::{
    check_options, contained, loaded, published, received, started, Called, NotifySource,
    NotifyState, RemoteNotify, MAX_KEY, MAX_METADATA,
};
use walgit_store::notify::subscribe::{
    default_channel, deliver, on_next, open, subscribes, Action, Event, Opening, Reconnecting,
    Response, Wake,
};
use walgit_store::store::StoreError;

/// A transport in memory.
#[derive(Default)]
struct Memory {
    queue: RefCell<VecDeque<String>>,
    broken: bool,
}

impl NotifySource for Memory {
    fn publish(&self, key: &str) -> Result<(), String> {
        if self.broken {
            return Err("broker is away".to_string());
        }
        self.queue.borrow_mut().push_back(key.to_string());
        Ok(())
    }

    fn next(&self) -> Result<Option<String>, String> {
        if self.broken {
            return Err("lost messages".to_string());
        }
        Ok(self.queue.borrow_mut().pop_front())
    }
}

fn memory(broken: bool, running: bool) -> RemoteNotify<NotifyState<Memory>> {
    RemoteNotify::new(NotifyState {
        source: Memory { queue: RefCell::default(), broken },
        running,
    })
}

#[test]
fn announces_prefixed_manifests_only() {
    let store = NotifyingStore::new("prefix/".to_string());
    let mut announced = Vec::new();
    for key in [
        "repos/t/r/manifest.pb",
        "repos/t/r/wal/000001.pb",
        "repos/t/r/events/cursor.json",
    ] {
        announced.extend(store.after(Written::Put(key), &Ok(())));
    }
    assert_eq!(announced, vec!["prefix/repos/t/r/manifest.pb".to_string()]);
}

#[test]
fn only_what_is_durable_is_announced() {
    let store = NotifyingStore::new("p/".to_string());
    let failed = Err(StoreError::other("down"));
    assert_eq!(store.after(Written::Put("a/manifest.pb"), &failed), None);
    assert_eq!(
        store.after(Written::Composed("a/manifest.pb"), &Ok(())).as_deref(),
        Some("p/a/manifest.pb")
    );
    assert_eq!(store.after(Written::Nothing, &Ok(())), None);
    assert_eq!(store.announce("manifest.pb"), None);
    assert_eq!(store.announce("/manifest.pb").as_deref(), Some("p//manifest.pb"));
    assert!(text_ends_with("größe", "ße"));
    assert!(!text_ends_with("e", "ße"));
    assert!(text_ends_with("x", ""));
}

#[test]
fn a_relative_library_is_refused_at_startup() {
    match open(Some(std::path::Path::new("libwalgit_notify_memory.so").is_absolute())) {
        Opening::Refused(m) => assert_eq!(m, "store.notify.library must be absolute"),
        _ => panic!("a relative path"),
    }
    assert!(matches!(open(None), Opening::Nothing));
    assert!(matches!(open(Some(true)), Opening::Load));
}

#[test]
fn oversized_keys_are_refused() {
    let notify = memory(false, true);
    assert!(notify.publish(&"x".repeat(8 * 1024)).is_err());
    assert_eq!(
        notify.publish(&"x".repeat(MAX_KEY + 1)),
        Err("notified key exceeds limit".to_string())
    );
    // The limit counts bytes: two for each of these letters.
    assert!(notify.publish(&"ö".repeat(MAX_KEY / 2 + 1)).is_err());
    assert_eq!(notify.next(), Ok(None));
    assert_eq!(notify.publish(&"x".repeat(MAX_KEY)), Ok(()));
    assert!(check_options(MAX_METADATA).is_ok());
    assert_eq!(check_options(MAX_METADATA + 1), Err("plugin options exceed limit".to_string()));
}

#[test]
fn a_published_key_comes_back_out() {
    let notify = memory(false, true);
    let other = memory(false, true);
    other.publish("other/instance").expect("published");
    assert_eq!(notify.next(), Ok(None));
    notify.publish("repos/t/r/manifest.pb").expect("published");
    assert_eq!(notify.next(), Ok(Some("repos/t/r/manifest.pb".to_string())));
}

#[test]
fn a_transport_says_what_it_was_doing() {
    let broken = memory(true, true);
    assert_eq!(broken.publish("k"), Err("notify plugin publish failed: broker is away".to_string()));
    assert_eq!(
        broken.next(),
        Err("notify plugin subscription failed: lost messages".to_string())
    );
    let stopped = memory(false, false);
    assert_eq!(
        stopped.publish("k"),
        Err("notify plugin publish failed: notify plugin is shutting down".to_string())
    );
    assert_eq!(
        stopped.next(),
        Err("notify plugin subscription failed: notify plugin is shutting down".to_string())
    );
    let panicked = Err("notify plugin panicked".to_string());
    assert_eq!(published(Called::Panicked), panicked);
    assert_eq!(contained::<()>(Called::Panicked), panicked);
    assert_eq!(contained(Called::Returned(Ok(3))), Ok(3));
    assert_eq!(received(Called::Panicked), Err("notify plugin panicked".to_string()));
    assert_eq!(
        started::<()>(Called::Panicked),
        Err("notify plugin initialization panicked".to_string())
    );
    assert_eq!(started(Called::Returned(Ok(3))), Ok(3));
    match loaded::<()>(Err("bad options".to_string())) {
        Err(m) => assert_eq!(m, "notify plugin initialization failed: bad options"),
        Ok(_) => panic!("it did not start"),
    }
    assert_eq!(*loaded(Ok(5)).ok().expect("loaded").endpoint, 5);
}

#[derive(Default)]
struct Recorder(Vec<String>);

impl Wake for Recorder {
    fn finalized(&mut self, key: &str) {
        self.0.push(key.to_string());
    }

    fn reconcile(&mut self) {
        self.0.push("reconcile".to_string());
    }
}

#[test]
fn a_gap_is_reconciled_and_reading_goes_on() {
    let mut woken = Recorder::default();
    assert!(deliver(Ok(Some("a".to_string())), &mut woken));
    assert!(deliver(Err("gap".to_string()), &mut woken));
    assert!(deliver(Ok(Some("b".to_string())), &mut woken));
    assert!(!deliver(Ok(None), &mut woken));
    assert_eq!(woken.0, ["a", "reconcile", "b"]);
    assert!(matches!(on_next(Ok(None)), Action::Stop));
}

#[test]
fn only_a_bridge_with_a_transport_subscribes() {
    assert!(subscribes(true, true));
    assert!(!subscribes(true, false) && !subscribes(false, true));
    assert_eq!(default_channel(), "walgit:object-finalized");
}

#[test]
fn a_subscription_reconciles_once_it_listens_again() {
    let mut s = Reconnecting::new();
    assert!(matches!(s.on(Event::Lost), Response::Retry));
    assert!(matches!(s.on(Event::Subscribed), Response::Listen));
    assert!(matches!(s.on(Event::Message(Some("k".to_string()))), Response::Finalized(k) if k == "k"));
    assert!(matches!(s.on(Event::Message(None)), Response::Listen));
    assert!(matches!(s.on(Event::Lost), Response::Retry));
    assert!(matches!(s.on(Event::Lost), Response::Retry));
    assert!(matches!(s.on(Event::Subscribed), Response::Reconcile));
}
