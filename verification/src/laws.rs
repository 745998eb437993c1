//! Properties of the registry that span several operations.
use vstd::prelude::*;

use crate::registry::{
    after_publish, after_subscribe, after_unsubscribe, audience, delivers_to, delivery_key,
    has_once_subscriber, unsubscribe_removes, unsubscribe_scope, Delivery, SubscriptionKey,
};
use crate::subscription::SubOption;

verus! {

/// A callback subscribed to an event is reached by the next publication of
/// that event, with the option it was subscribed with.
pub proof fn law_subscriber_receives_publication<C: Clone>(
    m: Map<SubscriptionKey, (SubOption, C)>,
    event: Seq<char>,
    target: Seq<char>,
    name: Seq<char>,
    option: SubOption,
    callback: C,
    ds: Seq<Delivery<C>>,
)
    requires
        delivers_to(after_subscribe(m, event, target, name, option, callback), event, ds),
    ensures
        exists|j: int|
            0 <= j < ds.len() && delivery_key(event, #[trigger] ds[j]) == (event, target, name)
                && ds[j].option == option && cloned(callback, ds[j].callback),
{
    let m2 = after_subscribe(m, event, target, name, option, callback);
    let k = (event, target, name);
    assert(audience(m2, event).contains(k));
    let j = choose|j: int| 0 <= j < ds.len() && delivery_key(event, #[trigger] ds[j]) == k;
    assert(m2[delivery_key(event, ds[j])] == (option, callback));
}

/// Subscribing leaves every other subscription as it was.
pub proof fn law_subscribe_keeps_others<C>(
    m: Map<SubscriptionKey, (SubOption, C)>,
    event: Seq<char>,
    target: Seq<char>,
    name: Seq<char>,
    option: SubOption,
    callback: C,
    k: SubscriptionKey,
)
    requires
        k != (event, target, name),
    ensures
        after_subscribe(m, event, target, name, option, callback).contains_key(k)
            == m.contains_key(k),
        m.contains_key(k) ==> after_subscribe(m, event, target, name, option, callback)[k] == m[k],
{
}

/// Subscribing again under the same event, target and callback name replaces
/// the earlier subscription.
pub proof fn law_resubscribe_replaces<C>(
    m: Map<SubscriptionKey, (SubOption, C)>,
    event: Seq<char>,
    target: Seq<char>,
    name: Seq<char>,
    first_option: SubOption,
    first_callback: C,
    option: SubOption,
    callback: C,
)
    ensures
        after_subscribe(
            after_subscribe(m, event, target, name, first_option, first_callback),
            event,
            target,
            name,
            option,
            callback,
        ) == after_subscribe(m, event, target, name, option, callback),
{
    assert(after_subscribe(
        after_subscribe(m, event, target, name, first_option, first_callback),
        event,
        target,
        name,
        option,
        callback,
    ) =~= after_subscribe(m, event, target, name, option, callback));
}

/// After a callback is unsubscribed, publications of the event no longer
/// reach it.
pub proof fn law_unsubscribed_callback_not_reached<C: Clone>(
    m: Map<SubscriptionKey, (SubOption, C)>,
    event: Seq<char>,
    target: Seq<char>,
    name: Seq<char>,
    ds: Seq<Delivery<C>>,
)
    requires
        delivers_to(after_unsubscribe(m, event, Some(name), target), event, ds),
    ensures
        forall|j: int|
            0 <= j < ds.len() ==> delivery_key(event, #[trigger] ds[j]) != (event, target, name),
{
    let m2 = after_unsubscribe(m, event, Some(name), target);
    assert forall|j: int| 0 <= j < ds.len() implies delivery_key(event, #[trigger] ds[j]) != (
        event,
        target,
        name,
    ) by {
        assert(audience(m2, event).contains(delivery_key(event, ds[j])));
    }
}

/// Unsubscribing a target with no callback name removes every callback of
/// that target for the event, so no publication of it reaches the target.
pub proof fn law_unsubscribed_target_not_reached<C: Clone>(
    m: Map<SubscriptionKey, (SubOption, C)>,
    event: Seq<char>,
    target: Seq<char>,
    ds: Seq<Delivery<C>>,
)
    requires
        delivers_to(after_unsubscribe(m, event, None, target), event, ds),
    ensures
        forall|j: int| 0 <= j < ds.len() ==> (#[trigger] ds[j]).target@ != target,
{
    let m2 = after_unsubscribe(m, event, None, target);
    assert forall|j: int| 0 <= j < ds.len() implies (#[trigger] ds[j]).target@ != target by {
        assert(audience(m2, event).contains(delivery_key(event, ds[j])));
    }
}

/// An unsubscription reports a removal exactly when it changes the
/// registry.
pub proof fn law_unsubscribe_reports_change<C>(
    m: Map<SubscriptionKey, (SubOption, C)>,
    event: Seq<char>,
    callback_name: Option<Seq<char>>,
    target: Seq<char>,
)
    ensures
        unsubscribe_removes(m, event, callback_name, target) <==> after_unsubscribe(
            m,
            event,
            callback_name,
            target,
        ) != m,
{
    let m2 = after_unsubscribe(m, event, callback_name, target);
    if unsubscribe_removes(m, event, callback_name, target) {
        let k = choose|k: SubscriptionKey| #[trigger]
            m.contains_key(k) && unsubscribe_scope(
                event,
                callback_name,
                target,
            ).contains(k);
        assert(!m2.contains_key(k));
    } else {
        assert(m2 =~= m);
    }
}

/// Unsubscribing undoes a subscription made under names that were free.
pub proof fn law_unsubscribe_undoes_subscribe<C>(
    m: Map<SubscriptionKey, (SubOption, C)>,
    event: Seq<char>,
    target: Seq<char>,
    name: Seq<char>,
    option: SubOption,
    callback: C,
)
    requires
        !m.contains_key((event, target, name)),
    ensures
        unsubscribe_removes(
            after_subscribe(m, event, target, name, option, callback),
            event,
            Some(name),
            target,
        ),
        after_unsubscribe(
            after_subscribe(m, event, target, name, option, callback),
            event,
            Some(name),
            target,
        ) == m,
{
    let m2 = after_subscribe(m, event, target, name, option, callback);
    let k = (event, target, name);
    assert(m2.contains_key(k));
    assert(after_unsubscribe(m2, event, Some(name), target) =~= m);
}

/// Unsubscribing twice is the same as unsubscribing once, and the second
/// time reports nothing removed.
pub proof fn law_unsubscribe_idempotent<C>(
    m: Map<SubscriptionKey, (SubOption, C)>,
    event: Seq<char>,
    callback_name: Option<Seq<char>>,
    target: Seq<char>,
)
    ensures
        !unsubscribe_removes(
            after_unsubscribe(m, event, callback_name, target),
            event,
            callback_name,
            target,
        ),
        after_unsubscribe(
            after_unsubscribe(m, event, callback_name, target),
            event,
            callback_name,
            target,
        ) == after_unsubscribe(m, event, callback_name, target),
{
    let m1 = after_unsubscribe(m, event, callback_name, target);
    assert(after_unsubscribe(m1, event, callback_name, target) =~= m1);
}

/// A one-shot subscription runs once: once a publication has been taken, the
/// next publication of the event reaches only subscriptions that run always.
pub proof fn law_once_runs_once<C: Clone>(
    m: Map<SubscriptionKey, (SubOption, C)>,
    event: Seq<char>,
    ds: Seq<Delivery<C>>,
)
    requires
        delivers_to(after_publish(m, event), event, ds),
    ensures
        forall|j: int| 0 <= j < ds.len() ==> (#[trigger] ds[j]).option == SubOption::Always,
        !has_once_subscriber(after_publish(m, event), event),
{
    let m2 = after_publish(m, event);
    assert forall|j: int| 0 <= j < ds.len() implies (#[trigger] ds[j]).option
        == SubOption::Always by {
        let k = delivery_key(event, ds[j]);
        assert(audience(m2, event).contains(k));
    }
}

/// Taking a publication keeps every subscription that runs always, and
/// every subscription to another event.
pub proof fn law_publish_keeps_lasting<C>(
    m: Map<SubscriptionKey, (SubOption, C)>,
    event: Seq<char>,
    k: SubscriptionKey,
)
    requires
        m.contains_key(k),
        k.0 != event || m[k].0 == SubOption::Always,
    ensures
        after_publish(m, event).contains_key(k),
        after_publish(m, event)[k] == m[k],
{
}

/// Taking a publication removes at once all it removes: a second publication
/// of the same event right after it changes nothing more.
pub proof fn law_publish_removes_once<C>(m: Map<SubscriptionKey, (SubOption, C)>, event: Seq<char>)
    ensures
        after_publish(after_publish(m, event), event) == after_publish(m, event),
{
    let m1 = after_publish(m, event);
    assert(after_publish(m1, event) =~= m1);
}

/// A publication with no one-shot subscriber removes nothing.
pub proof fn law_publish_without_once_changes_nothing<C>(
    m: Map<SubscriptionKey, (SubOption, C)>,
    event: Seq<char>,
)
    requires
        !has_once_subscriber(m, event),
    ensures
        after_publish(m, event) == m,
{
    assert forall|k: SubscriptionKey| m.contains_key(k) implies !crate::registry::once_keys(
        m,
        event,
    ).contains(k) by {
        if k.0 == event && m[k].0 == SubOption::Once {
            assert(m.contains_key(k) && k.0 == event && m[k].0 == SubOption::Once);
        }
    }
    assert(after_publish(m, event) =~= m);
}

/// A publication delivers nothing exactly when the event has no
/// subscriber.
pub proof fn law_no_subscriber_no_delivery<C: Clone>(
    m: Map<SubscriptionKey, (SubOption, C)>,
    event: Seq<char>,
    ds: Seq<Delivery<C>>,
)
    requires
        delivers_to(m, event, ds),
    ensures
        ds.len() == 0 <==> audience(m, event) == Set::<SubscriptionKey>::empty(),
{
    if ds.len() == 0 {
        assert forall|k: SubscriptionKey| !audience(m, event).contains(k) by {
            if audience(m, event).contains(k) {
                let j = choose|j: int| 0 <= j < ds.len() && delivery_key(event, #[trigger] ds[j]) == k;
            }
        }
        assert(audience(m, event) =~= Set::<SubscriptionKey>::empty());
    } else {
        assert(audience(m, event).contains(delivery_key(event, ds[0])));
    }
}

// ---------------------------------------------------------------------------
// Sequences of operations
// ---------------------------------------------------------------------------

/// One operation on the registry. The bus applies them one at a time, in the
/// order in which they take its lock.
pub enum Step<C> {
    Subscribe {
        event: Seq<char>,
        target: Seq<char>,
        name: Seq<char>,
        option: SubOption,
        callback: C,
    },
    Unsubscribe { event: Seq<char>, callback_name: Option<Seq<char>>, target: Seq<char> },
    /// A publication taken from the registry.
    Publish { event: Seq<char> },
}

/// The view after one step.
pub open spec fn apply_step<C>(m: Map<SubscriptionKey, (SubOption, C)>, s: Step<C>) -> Map<
    SubscriptionKey,
    (SubOption, C),
> {
    match s {
        Step::Subscribe { event, target, name, option, callback } => after_subscribe(
            m,
            event,
            target,
            name,
            option,
            callback,
        ),
        Step::Unsubscribe { event, callback_name, target } => after_unsubscribe(
            m,
            event,
            callback_name,
            target,
        ),
        Step::Publish { event } => after_publish(m, event),
    }
}

/// The view after a sequence of steps.
pub open spec fn run_steps<C>(m: Map<SubscriptionKey, (SubOption, C)>, steps: Seq<Step<C>>) -> Map<
    SubscriptionKey,
    (SubOption, C),
>
    decreases steps.len(),
{
    if steps.len() == 0 {
        m
    } else {
        run_steps(apply_step(m, steps[0]), steps.drop_first())
    }
}

/// Whether a step is a publication that reaches the subscription `k`.
pub open spec fn publication_reaches<C>(
    m: Map<SubscriptionKey, (SubOption, C)>,
    s: Step<C>,
    k: SubscriptionKey,
) -> bool {
    match s {
        Step::Publish { event } => audience(m, event).contains(k),
        _ => false,
    }
}

/// How many publications of a sequence reach the subscription `k`.
pub open spec fn times_reached<C>(
    m: Map<SubscriptionKey, (SubOption, C)>,
    steps: Seq<Step<C>>,
    k: SubscriptionKey,
) -> nat
    decreases steps.len(),
{
    if steps.len() == 0 {
        0
    } else {
        (if publication_reaches(m, steps[0], k) {
            1nat
        } else {
            0nat
        }) + times_reached(apply_step(m, steps[0]), steps.drop_first(), k)
    }
}

/// The key a subscription step stores under.
pub open spec fn subscribe_key<C>(s: Step<C>) -> SubscriptionKey
    recommends
        s is Subscribe,
{
    (s->Subscribe_event, s->Subscribe_target, s->Subscribe_name)
}

/// Whether a step subscribes under the key `k`.
pub open spec fn subscribes_to<C>(s: Step<C>, k: SubscriptionKey) -> bool {
    s is Subscribe && subscribe_key(s) == k
}

/// Whether a step can change or deliver the subscription `k`: it subscribes
/// under `k`, unsubscribes a scope holding `k`, or publishes `k`'s event.
pub open spec fn addresses<C>(s: Step<C>, k: SubscriptionKey) -> bool {
    match s {
        Step::Subscribe { event, target, name, .. } => (event, target, name) == k,
        Step::Unsubscribe { event, callback_name, target } => unsubscribe_scope(
            event,
            callback_name,
            target,
        ).contains(k),
        Step::Publish { event } => event == k.0,
    }
}

/// A publication's deliveries reach the subscription `k` exactly when the
/// publication step reaches it.
pub proof fn law_delivered_when_reached<C: Clone>(
    m: Map<SubscriptionKey, (SubOption, C)>,
    event: Seq<char>,
    ds: Seq<Delivery<C>>,
    k: SubscriptionKey,
)
    requires
        delivers_to(m, event, ds),
    ensures
        publication_reaches(m, Step::Publish { event }, k) <==> exists|j: int|
            0 <= j < ds.len() && delivery_key(event, #[trigger] ds[j]) == k,
{
    if exists|j: int| 0 <= j < ds.len() && delivery_key(event, #[trigger] ds[j]) == k {
        let j = choose|j: int| 0 <= j < ds.len() && delivery_key(event, #[trigger] ds[j]) == k;
        assert(audience(m, event).contains(delivery_key(event, ds[j])));
    }
}

proof fn lemma_absent_never_reached<C>(
    m: Map<SubscriptionKey, (SubOption, C)>,
    steps: Seq<Step<C>>,
    k: SubscriptionKey,
)
    requires
        !m.contains_key(k),
        forall|i: int| 0 <= i < steps.len() ==> !subscribes_to(#[trigger] steps[i], k),
    ensures
        times_reached(m, steps, k) == 0,
    decreases steps.len(),
{
    if steps.len() > 0 {
        let m1 = apply_step(m, steps[0]);
        assert(!subscribes_to(steps[0], k));
        assert(!m1.contains_key(k));
        assert(!publication_reaches(m, steps[0], k));
        let rest = steps.drop_first();
        assert forall|i: int| 0 <= i < rest.len() implies !subscribes_to(#[trigger] rest[i], k) by {
            assert(rest[i] == steps[i + 1]);
        }
        lemma_absent_never_reached(m1, rest, k);
    }
}

/// A one-shot subscription is delivered at most once: however publications,
/// subscriptions and unsubscriptions interleave, as long as nothing
/// subscribes under its names again, at most one publication reaches it.
pub proof fn law_once_delivered_at_most_once<C>(
    m: Map<SubscriptionKey, (SubOption, C)>,
    steps: Seq<Step<C>>,
    k: SubscriptionKey,
)
    requires
        m.contains_key(k) ==> m[k].0 == SubOption::Once,
        forall|i: int| 0 <= i < steps.len() ==> !subscribes_to(#[trigger] steps[i], k),
    ensures
        times_reached(m, steps, k) <= 1,
    decreases steps.len(),
{
    if steps.len() > 0 {
        let m1 = apply_step(m, steps[0]);
        let rest = steps.drop_first();
        assert(!subscribes_to(steps[0], k));
        assert forall|i: int| 0 <= i < rest.len() implies !subscribes_to(#[trigger] rest[i], k) by {
            assert(rest[i] == steps[i + 1]);
        }
        if publication_reaches(m, steps[0], k) {
            assert(!m1.contains_key(k));
            lemma_absent_never_reached(m1, rest, k);
        } else {
            assert(m1.contains_key(k) ==> m1[k].0 == SubOption::Once);
            law_once_delivered_at_most_once(m1, rest, k);
        }
    }
}

proof fn lemma_unaddressed_kept<C>(
    m: Map<SubscriptionKey, (SubOption, C)>,
    steps: Seq<Step<C>>,
    k: SubscriptionKey,
)
    requires
        m.contains_key(k),
        forall|i: int| 0 <= i < steps.len() ==> !addresses(#[trigger] steps[i], k),
    ensures
        run_steps(m, steps).contains_key(k),
        run_steps(m, steps)[k] == m[k],
    decreases steps.len(),
{
    if steps.len() > 0 {
        let m1 = apply_step(m, steps[0]);
        let rest = steps.drop_first();
        assert(!addresses(steps[0], k));
        assert(m1.contains_key(k) && m1[k] == m[k]);
        assert forall|i: int| 0 <= i < rest.len() implies !addresses(#[trigger] rest[i], k) by {
            assert(rest[i] == steps[i + 1]);
        }
        lemma_unaddressed_kept(m1, rest, k);
    }
}

/// A one-shot subscription made after a publication was taken is kept, as
/// it was made, until a later step addresses it; the next publication of its
/// event then reaches it.
pub proof fn law_once_kept_until_delivered<C>(
    m: Map<SubscriptionKey, (SubOption, C)>,
    event: Seq<char>,
    target: Seq<char>,
    name: Seq<char>,
    callback: C,
    steps: Seq<Step<C>>,
)
    requires
        forall|i: int| 0 <= i < steps.len() ==> !addresses(#[trigger] steps[i], (event, target, name)),
    ensures
        run_steps(after_subscribe(m, event, target, name, SubOption::Once, callback), steps)
            .contains_key((event, target, name)),
        run_steps(after_subscribe(m, event, target, name, SubOption::Once, callback), steps)[(
            event,
            target,
            name,
        )] == (SubOption::Once, callback),
        publication_reaches(
            run_steps(after_subscribe(m, event, target, name, SubOption::Once, callback), steps),
            Step::Publish { event },
            (event, target, name),
        ),
{
    let m0 = after_subscribe(m, event, target, name, SubOption::Once, callback);
    lemma_unaddressed_kept(m0, steps, (event, target, name));
}

/// Subscriptions under pairwise distinct names, in any order, are all kept:
/// after them the registry holds each with its option and callback, and
/// every other subscription as before.
pub proof fn law_distinct_subscriptions_all_kept<C>(
    m: Map<SubscriptionKey, (SubOption, C)>,
    steps: Seq<Step<C>>,
)
    requires
        forall|i: int| 0 <= i < steps.len() ==> (#[trigger] steps[i]) is Subscribe,
        forall|i: int, j: int|
            0 <= i < steps.len() && 0 <= j < steps.len() && i != j ==> subscribe_key(
                #[trigger] steps[i],
            ) != subscribe_key(#[trigger] steps[j]),
    ensures
        forall|i: int|
            0 <= i < steps.len() ==> run_steps(m, steps).contains_key(
                subscribe_key(#[trigger] steps[i]),
            ) && run_steps(m, steps)[subscribe_key(steps[i])] == (
                steps[i]->Subscribe_option,
                steps[i]->Subscribe_callback,
            ),
        forall|k: SubscriptionKey|
            (forall|i: int| 0 <= i < steps.len() ==> subscribe_key(#[trigger] steps[i]) != k)
                ==> (#[trigger] run_steps(m, steps).contains_key(k) == m.contains_key(k)
                && (m.contains_key(k) ==> run_steps(m, steps)[k] == m[k])),
    decreases steps.len(),
{
    if steps.len() > 0 {
        let s0 = steps[0];
        let m1 = apply_step(m, s0);
        let rest = steps.drop_first();
        assert(m1 == m.insert(subscribe_key(s0), (s0->Subscribe_option, s0->Subscribe_callback)));
        assert forall|i: int| 0 <= i < rest.len() implies (#[trigger] rest[i]) is Subscribe by {
            assert(rest[i] == steps[i + 1]);
        }
        assert forall|i: int, j: int|
            0 <= i < rest.len() && 0 <= j < rest.len() && i != j implies subscribe_key(
            #[trigger] rest[i],
        ) != subscribe_key(#[trigger] rest[j]) by {
            assert(rest[i] == steps[i + 1]);
            assert(rest[j] == steps[j + 1]);
        }
        law_distinct_subscriptions_all_kept(m1, rest);
        let r = run_steps(m, steps);
        assert(r == run_steps(m1, rest));
        assert forall|i: int| 0 <= i < steps.len() implies r.contains_key(
            subscribe_key(#[trigger] steps[i]),
        ) && r[subscribe_key(steps[i])] == (
            steps[i]->Subscribe_option,
            steps[i]->Subscribe_callback,
        ) by {
            if i == 0 {
                assert forall|x: int| 0 <= x < rest.len() implies subscribe_key(
                    #[trigger] rest[x],
                ) != subscribe_key(s0) by {
                    assert(rest[x] == steps[x + 1]);
                }
                assert(run_steps(m1, rest).contains_key(subscribe_key(s0)));
            } else {
                assert(steps[i] == rest[i - 1]);
                assert(run_steps(m1, rest).contains_key(subscribe_key(rest[i - 1])));
            }
        }
        assert forall|k: SubscriptionKey|
            (forall|i: int| 0 <= i < steps.len() ==> subscribe_key(#[trigger] steps[i]) != k)
            implies (#[trigger] r.contains_key(k) == m.contains_key(k) && (m.contains_key(k)
            ==> r[k] == m[k])) by {
            assert(subscribe_key(steps[0]) != k);
            assert forall|x: int| 0 <= x < rest.len() implies subscribe_key(
                #[trigger] rest[x],
            ) != k by {
                assert(rest[x] == steps[x + 1]);
            }
        }
    }
}

} // verus!
