use vstd::prelude::*;

verus! {

/// Controls whether a subscription runs for every publication or only once.
#[derive(Clone, Copy, Debug, PartialEq, Eq, Structural)]
pub enum SubOption {
    Always,
    Once,
}

/// Errors reported by the event bus.
#[derive(Clone, Debug, PartialEq, Eq)]
pub enum PubSubError {
    LockPoisoned,
    SubscriptionError(String),
    BroadcastError(String),
    UnsubscribeError(String),
}

/// The human-readable text of an error.
pub open spec fn error_text(err: PubSubError) -> Seq<char> {
    match err {
        PubSubError::LockPoisoned => "Failed to acquire lock: lock is poisoned"@,
        PubSubError::SubscriptionError(msg) => "Subscription operation failed: "@ + msg@,
        PubSubError::BroadcastError(msg) => "Broadcast operation failed: "@ + msg@,
        PubSubError::UnsubscribeError(msg) => "Unsubscribe operation failed: "@ + msg@,
    }
}

fn prefixed(prefix: &str, msg: &String) -> (text: String)
    ensures
        text@ == prefix@ + msg@,
{
    let mut text = String::from_str(prefix);
    text.append(msg.as_str());
    text
}

impl PubSubError {
    /// Describes the error, as its `Display` form would.
    pub fn message(&self) -> (text: String)
        ensures
            text@ == error_text(*self),
    {
        match self {
            PubSubError::LockPoisoned => String::from_str("Failed to acquire lock: lock is poisoned"),
            PubSubError::SubscriptionError(msg) => prefixed("Subscription operation failed: ", msg),
            PubSubError::BroadcastError(msg) => prefixed("Broadcast operation failed: ", msg),
            PubSubError::UnsubscribeError(msg) => prefixed("Unsubscribe operation failed: ", msg),
        }
    }
}

} // verus!
