use ez_pubsub::{Delivery, PubSub, PubSubError, SubOption};

fn sub(bus: &mut PubSub<u32>, event: &str, name: &str, target: &str, option: SubOption, cb: u32) {
    let r = bus.subscribe(event.to_string(), name.to_string(), target.to_string(), option, cb);
    assert_eq!(r, Ok(()));
}

/// The (target, name, option, callback) of each delivery, sorted.
fn reached(ds: &[Delivery<u32>]) -> Vec<(String, String, SubOption, u32)> {
    let mut v: Vec<(String, String, SubOption, u32)> = ds
        .iter()
        .map(|d| (d.target.clone(), d.name.clone(), d.option, d.callback))
        .collect();
    v.sort_by(|a, b| (a.0.clone(), a.1.clone(), a.3).cmp(&(b.0.clone(), b.1.clone(), b.3)));
    v
}

fn publish(bus: &mut PubSub<u32>, event: &str) -> Vec<(String, String, SubOption, u32)> {
    reached(&bus.take_publication(event))
}

#[test]
fn new_and_default_registries_deliver_nothing() {
    let mut bus = PubSub::<u32>::new();
    assert!(bus.take_publication("anything").is_empty());
    let mut bus: PubSub<u32> = Default::default();
    assert!(bus.take_publication("anything").is_empty());
}

#[test]
fn subscriber_receives_publication_with_its_option() {
    let mut bus = PubSub::new();
    sub(&mut bus, "e", "cb", "t", SubOption::Always, 5);
    assert_eq!(publish(&mut bus, "e"), vec![("t".to_string(), "cb".to_string(), SubOption::Always, 5)]);
    assert_eq!(publish(&mut bus, "e").len(), 1);
}

#[test]
fn publication_reaches_only_its_event() {
    let mut bus = PubSub::new();
    sub(&mut bus, "a", "cb", "t", SubOption::Always, 1);
    sub(&mut bus, "b", "cb", "t", SubOption::Always, 2);
    assert_eq!(publish(&mut bus, "a"), vec![("t".to_string(), "cb".to_string(), SubOption::Always, 1)]);
    assert_eq!(publish(&mut bus, "b"), vec![("t".to_string(), "cb".to_string(), SubOption::Always, 2)]);
    assert!(publish(&mut bus, "c").is_empty());
}

#[test]
fn resubscribe_replaces_callback() {
    let mut bus = PubSub::new();
    sub(&mut bus, "e", "cb", "t", SubOption::Once, 1);
    sub(&mut bus, "e", "cb", "t", SubOption::Always, 2);
    assert_eq!(publish(&mut bus, "e"), vec![("t".to_string(), "cb".to_string(), SubOption::Always, 2)]);
    assert_eq!(publish(&mut bus, "e").len(), 1);
}

#[test]
fn same_name_under_other_target_is_another_subscription() {
    let mut bus = PubSub::new();
    sub(&mut bus, "e", "cb", "t1", SubOption::Always, 1);
    sub(&mut bus, "e", "cb", "t2", SubOption::Always, 2);
    assert_eq!(publish(&mut bus, "e").len(), 2);
}

#[test]
fn unsubscribe_one_callback_reports_removal() {
    let mut bus = PubSub::new();
    sub(&mut bus, "e", "a", "t", SubOption::Always, 1);
    sub(&mut bus, "e", "b", "t", SubOption::Always, 2);
    assert_eq!(bus.unsubscribe("e", Some("a"), "t"), Ok(true));
    assert_eq!(bus.unsubscribe("e", Some("a"), "t"), Ok(false));
    assert_eq!(publish(&mut bus, "e"), vec![("t".to_string(), "b".to_string(), SubOption::Always, 2)]);
}

#[test]
fn unsubscribe_missing_reports_nothing_removed() {
    let mut bus = PubSub::new();
    sub(&mut bus, "e", "a", "t", SubOption::Always, 1);
    assert_eq!(bus.unsubscribe("other", Some("a"), "t"), Ok(false));
    assert_eq!(bus.unsubscribe("e", Some("a"), "other"), Ok(false));
    assert_eq!(bus.unsubscribe("e", None, "other"), Ok(false));
    assert_eq!(publish(&mut bus, "e").len(), 1);
}

#[test]
fn unsubscribe_whole_target() {
    let mut bus = PubSub::new();
    sub(&mut bus, "e", "a", "t", SubOption::Always, 1);
    sub(&mut bus, "e", "b", "t", SubOption::Once, 2);
    sub(&mut bus, "e", "c", "u", SubOption::Always, 3);
    sub(&mut bus, "f", "a", "t", SubOption::Always, 4);
    assert_eq!(bus.unsubscribe("e", None, "t"), Ok(true));
    assert_eq!(bus.unsubscribe("e", None, "t"), Ok(false));
    assert_eq!(publish(&mut bus, "e"), vec![("u".to_string(), "c".to_string(), SubOption::Always, 3)]);
    assert_eq!(publish(&mut bus, "f"), vec![("t".to_string(), "a".to_string(), SubOption::Always, 4)]);
}

#[test]
fn once_runs_once_and_always_stays() {
    let mut bus = PubSub::new();
    sub(&mut bus, "e", "keep", "t", SubOption::Always, 1);
    sub(&mut bus, "e", "first", "t", SubOption::Once, 2);
    sub(&mut bus, "f", "other", "t", SubOption::Once, 3);
    assert_eq!(publish(&mut bus, "e").len(), 2);
    assert_eq!(publish(&mut bus, "e"), vec![("t".to_string(), "keep".to_string(), SubOption::Always, 1)]);
    assert_eq!(publish(&mut bus, "f"), vec![("t".to_string(), "other".to_string(), SubOption::Once, 3)]);
    assert!(publish(&mut bus, "f").is_empty());
}

#[test]
fn overlapping_publications_deliver_once_only_once() {
    let mut bus = PubSub::new();
    sub(&mut bus, "e", "o", "t", SubOption::Once, 1);
    sub(&mut bus, "e", "a", "t", SubOption::Always, 2);
    // Two publications taken before either one's callbacks have run.
    let first = publish(&mut bus, "e");
    let second = publish(&mut bus, "e");
    assert_eq!(first.len(), 2);
    assert_eq!(second, vec![("t".to_string(), "a".to_string(), SubOption::Always, 2)]);
}

#[test]
fn once_made_while_callbacks_run_is_kept() {
    let mut bus = PubSub::new();
    sub(&mut bus, "e", "o1", "t", SubOption::Once, 1);
    let first = bus.take_publication("e");
    // Subscribed while the first publication's callbacks are running.
    sub(&mut bus, "e", "o2", "t", SubOption::Once, 2);
    assert_eq!(reached(&first), vec![("t".to_string(), "o1".to_string(), SubOption::Once, 1)]);
    assert_eq!(publish(&mut bus, "e"), vec![("t".to_string(), "o2".to_string(), SubOption::Once, 2)]);
    assert!(publish(&mut bus, "e").is_empty());
}

#[test]
fn distinct_subscriptions_in_any_order_all_kept() {
    let mut a = PubSub::new();
    let mut b = PubSub::new();
    sub(&mut a, "e", "x", "t", SubOption::Always, 1);
    sub(&mut a, "e", "y", "t", SubOption::Once, 2);
    sub(&mut a, "e", "x", "u", SubOption::Always, 3);
    sub(&mut b, "e", "x", "u", SubOption::Always, 3);
    sub(&mut b, "e", "y", "t", SubOption::Once, 2);
    sub(&mut b, "e", "x", "t", SubOption::Always, 1);
    let ra = publish(&mut a, "e");
    assert_eq!(ra.len(), 3);
    assert_eq!(ra, publish(&mut b, "e"));
}

#[test]
fn subscribe_then_unsubscribe_restores() {
    let mut bus = PubSub::new();
    sub(&mut bus, "e", "a", "t", SubOption::Always, 1);
    sub(&mut bus, "e", "b", "t", SubOption::Always, 2);
    assert_eq!(bus.unsubscribe("e", Some("b"), "t"), Ok(true));
    assert_eq!(publish(&mut bus, "e"), vec![("t".to_string(), "a".to_string(), SubOption::Always, 1)]);
}

#[test]
fn error_messages() {
    assert_eq!(PubSubError::LockPoisoned.message(), "Failed to acquire lock: lock is poisoned");
    assert_eq!(
        PubSubError::SubscriptionError("x".to_string()).message(),
        "Subscription operation failed: x"
    );
    assert_eq!(PubSubError::BroadcastError("y".to_string()).message(), "Broadcast operation failed: y");
    assert_eq!(
        PubSubError::UnsubscribeError("z".to_string()).message(),
        "Unsubscribe operation failed: z"
    );
}
