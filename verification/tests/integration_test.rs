use ez_pubsub::{PubSub, PubSubError, SubOption};
use std::sync::{Arc, Mutex};

type Callback = Arc<dyn Fn(Arc<String>) -> Result<(), PubSubError> + Send + Sync>;

/// Runs one publication the way the async bus does: the registry hands out
/// the callbacks (removing the one-shot ones), then they run.
fn publish(bus: &mut PubSub<Callback>, event: &str, data: String) -> Result<(), PubSubError> {
    let data = Arc::new(data);
    for delivery in bus.take_publication(event) {
        if let Err(e) = (delivery.callback)(data.clone()) {
            println!("Callback error: {:?}", e);
        }
    }
    Ok(())
}

fn recorder(messages: &Arc<Mutex<Vec<String>>>) -> Callback {
    let messages = messages.clone();
    Arc::new(move |message: Arc<String>| {
        messages.lock().unwrap().push((*message).clone());
        Ok(())
    })
}

fn subscribe(
    bus: &mut PubSub<Callback>,
    event: &str,
    name: &str,
    target: &str,
    option: SubOption,
    callback: Callback,
) -> Result<(), PubSubError> {
    bus.subscribe(event.to_string(), name.to_string(), target.to_string(), option, callback)
}

#[test]
fn test_single_publisher_single_subscriber() {
    let mut pubsub = PubSub::<Callback>::new();
    let received_messages = Arc::new(Mutex::new(vec![]));

    subscribe(&mut pubsub, "test_topic", "cb1", "target1", SubOption::Always, recorder(&received_messages))
        .unwrap();
    publish(&mut pubsub, "test_topic", "hello".to_string()).unwrap();

    let messages = received_messages.lock().unwrap();
    assert_eq!(messages.len(), 1);
    assert_eq!(messages[0], "hello");
}

#[test]
fn test_single_publisher_multiple_subscribers() {
    let mut pubsub = PubSub::<Callback>::new();
    let received_messages1 = Arc::new(Mutex::new(vec![]));
    let received_messages2 = Arc::new(Mutex::new(vec![]));

    subscribe(&mut pubsub, "test_topic", "cb1", "target1", SubOption::Always, recorder(&received_messages1))
        .unwrap();
    subscribe(&mut pubsub, "test_topic", "cb2", "target2", SubOption::Always, recorder(&received_messages2))
        .unwrap();
    publish(&mut pubsub, "test_topic", "hello".to_string()).unwrap();

    let messages1 = received_messages1.lock().unwrap();
    assert_eq!(messages1.len(), 1);
    assert_eq!(messages1[0], "hello");

    let messages2 = received_messages2.lock().unwrap();
    assert_eq!(messages2.len(), 1);
    assert_eq!(messages2[0], "hello");
}

#[test]
fn test_multiple_publishers_single_subscriber() {
    let mut pubsub = PubSub::<Callback>::new();
    let received_messages = Arc::new(Mutex::new(vec![]));

    subscribe(&mut pubsub, "test_topic", "cb1", "target1", SubOption::Always, recorder(&received_messages))
        .unwrap();
    publish(&mut pubsub, "test_topic", "hello from publisher 1".to_string()).unwrap();
    publish(&mut pubsub, "test_topic", "hello from publisher 2".to_string()).unwrap();

    let messages = received_messages.lock().unwrap();
    assert_eq!(messages.len(), 2);
    assert!(messages.contains(&"hello from publisher 1".to_string()));
    assert!(messages.contains(&"hello from publisher 2".to_string()));
}

#[test]
fn test_unsubscribe() {
    let mut pubsub = PubSub::<Callback>::new();
    let received_messages = Arc::new(Mutex::new(vec![]));

    subscribe(&mut pubsub, "test_topic", "cb1", "target1", SubOption::Always, recorder(&received_messages))
        .unwrap();
    publish(&mut pubsub, "test_topic", "hello 1".to_string()).unwrap();
    pubsub.unsubscribe("test_topic", Some("cb1"), "target1").unwrap();
    publish(&mut pubsub, "test_topic", "hello 2".to_string()).unwrap();

    let messages = received_messages.lock().unwrap();
    assert_eq!(messages.len(), 1);
    assert_eq!(messages[0], "hello 1");
}

#[test]
fn test_sub_option_once() {
    let mut pubsub = PubSub::<Callback>::new();
    let received_messages = Arc::new(Mutex::new(vec![]));

    subscribe(&mut pubsub, "test_topic", "cb1", "target1", SubOption::Once, recorder(&received_messages))
        .unwrap();
    publish(&mut pubsub, "test_topic", "hello 1".to_string()).unwrap();
    publish(&mut pubsub, "test_topic", "hello 2".to_string()).unwrap();

    let messages = received_messages.lock().unwrap();
    assert_eq!(messages.len(), 1);
    assert_eq!(messages[0], "hello 1");
}
