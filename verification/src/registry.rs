use vstd::prelude::*;

use crate::subscription::{PubSubError, SubOption};

verus! {

/// Identifies one subscription: its event name, target id and callback name.
pub type SubscriptionKey = (Seq<char>, Seq<char>, Seq<char>);

/// One stored subscription.
struct Entry<C> {
    event: String,
    target: String,
    name: String,
    option: SubOption,
    callback: C,
}

/// The subscription registry of an event bus.
///
/// Its view maps each (event, target, callback name) to the subscription's
/// option and callback. A key occurs at most once.
pub struct PubSub<C> {
    entries: Vec<Entry<C>>,
}

/// A callback that a publication reaches, with the target and name it was
/// subscribed under.
pub struct Delivery<C> {
    pub target: String,
    pub name: String,
    pub option: SubOption,
    pub callback: C,
}

// ---------------------------------------------------------------------------
// The model of the registry
// ---------------------------------------------------------------------------

/// The keys of a view that belong to `event`.
pub open spec fn audience<C>(m: Map<SubscriptionKey, (SubOption, C)>, event: Seq<char>) -> Set<
    SubscriptionKey,
> {
    m.dom().filter(|k: SubscriptionKey| k.0 == event)
}

/// Whether some subscription to `event` is one-shot.
pub open spec fn has_once_subscriber<C>(
    m: Map<SubscriptionKey, (SubOption, C)>,
    event: Seq<char>,
) -> bool {
    exists|k: SubscriptionKey| #[trigger]
        m.contains_key(k) && k.0 == event && m[k].0 == SubOption::Once
}

/// The view after subscribing `callback` under (event, target, name).
pub open spec fn after_subscribe<C>(
    m: Map<SubscriptionKey, (SubOption, C)>,
    event: Seq<char>,
    target: Seq<char>,
    name: Seq<char>,
    option: SubOption,
    callback: C,
) -> Map<SubscriptionKey, (SubOption, C)> {
    m.insert((event, target, name), (option, callback))
}

/// The keys an unsubscription addresses: one callback of a target, or, with
/// no callback name, every callback of the target.
pub open spec fn unsubscribe_scope(
    event: Seq<char>,
    callback_name: Option<Seq<char>>,
    target: Seq<char>,
) -> Set<SubscriptionKey> {
    Set::new(
        |k: SubscriptionKey|
            k.0 == event && k.1 == target && match callback_name {
                Some(n) => k.2 == n,
                None => true,
            },
    )
}

/// The view after an unsubscription.
pub open spec fn after_unsubscribe<C>(
    m: Map<SubscriptionKey, (SubOption, C)>,
    event: Seq<char>,
    callback_name: Option<Seq<char>>,
    target: Seq<char>,
) -> Map<SubscriptionKey, (SubOption, C)> {
    m.remove_keys(unsubscribe_scope(event, callback_name, target))
}

/// Whether an unsubscription finds something to remove.
pub open spec fn unsubscribe_removes<C>(
    m: Map<SubscriptionKey, (SubOption, C)>,
    event: Seq<char>,
    callback_name: Option<Seq<char>>,
    target: Seq<char>,
) -> bool {
    exists|k: SubscriptionKey| #[trigger]
        m.contains_key(k) && unsubscribe_scope(event, callback_name, target).contains(k)
}

/// The one-shot subscriptions to `event`.
pub open spec fn once_keys<C>(m: Map<SubscriptionKey, (SubOption, C)>, event: Seq<char>) -> Set<
    SubscriptionKey,
> {
    Set::new(|k: SubscriptionKey| k.0 == event && m.contains_key(k) && m[k].0 == SubOption::Once)
}

/// The view after a publication of `event` is taken: its one-shot
/// subscriptions have received the event and are gone.
pub open spec fn after_publish<C>(m: Map<SubscriptionKey, (SubOption, C)>, event: Seq<char>) -> Map<
    SubscriptionKey,
    (SubOption, C),
> {
    m.remove_keys(once_keys(m, event))
}

/// The key a delivery of `event` stands for.
pub open spec fn delivery_key<C>(event: Seq<char>, d: Delivery<C>) -> SubscriptionKey {
    (event, d.target@, d.name@)
}

/// The deliveries reach every subscription to `event` exactly once, each with
/// its option and a clone of its callback.
pub open spec fn delivers_to<C: Clone>(
    m: Map<SubscriptionKey, (SubOption, C)>,
    event: Seq<char>,
    ds: Seq<Delivery<C>>,
) -> bool {
    &&& forall|j: int|
        0 <= j < ds.len() ==> {
            let k = delivery_key(event, #[trigger] ds[j]);
            &&& audience(m, event).contains(k)
            &&& m[k].0 == ds[j].option
            &&& cloned(m[k].1, ds[j].callback)
        }
    &&& forall|j1: int, j2: int|
        0 <= j1 < ds.len() && 0 <= j2 < ds.len() && j1 != j2 ==> delivery_key(
            event,
            #[trigger] ds[j1],
        ) != delivery_key(event, #[trigger] ds[j2])
    &&& forall|k: SubscriptionKey| #[trigger]
        audience(m, event).contains(k) ==> exists|j: int|
            0 <= j < ds.len() && delivery_key(event, #[trigger] ds[j]) == k
}

/// The view of an optional callback name.
pub open spec fn name_view(callback_name: Option<&str>) -> Option<Seq<char>> {
    match callback_name {
        Some(n) => Some(n@),
        None => None,
    }
}

// ---------------------------------------------------------------------------
// From the stored entries to the model
// ---------------------------------------------------------------------------

spec fn key_of<C>(e: Entry<C>) -> SubscriptionKey {
    (e.event@, e.target@, e.name@)
}

spec fn value_of<C>(e: Entry<C>) -> (SubOption, C) {
    (e.option, e.callback)
}

spec fn distinct_keys<C>(s: Seq<Entry<C>>) -> bool {
    forall|i: int, j: int|
        0 <= i < s.len() && 0 <= j < s.len() && i != j ==> key_of(#[trigger] s[i]) != key_of(
            #[trigger] s[j],
        )
}

spec fn holds_key<C>(s: Seq<Entry<C>>, k: SubscriptionKey) -> bool {
    exists|i: int| 0 <= i < s.len() && key_of(#[trigger] s[i]) == k
}

spec fn entries_map<C>(s: Seq<Entry<C>>) -> Map<SubscriptionKey, (SubOption, C)> {
    Map::new(
        |k: SubscriptionKey| holds_key(s, k),
        |k: SubscriptionKey| value_of(s[choose|i: int| 0 <= i < s.len() && key_of(s[i]) == k]),
    )
}

/// `sel` lists entries of `s` in order, `pos` giving where each was found.
spec fn selects<C>(s: Seq<Entry<C>>, sel: Seq<Entry<C>>, pos: Seq<int>) -> bool {
    &&& pos.len() == sel.len()
    &&& forall|j: int| 0 <= j < pos.len() ==> 0 <= #[trigger] pos[j] < s.len() && sel[j] == s[pos[j]]
    &&& forall|j1: int, j2: int| 0 <= j1 < j2 < pos.len() ==> #[trigger] pos[j1] < #[trigger] pos[j2]
}

proof fn lemma_lookup<C>(s: Seq<Entry<C>>, i: int)
    requires
        distinct_keys(s),
        0 <= i < s.len(),
    ensures
        entries_map(s).contains_key(key_of(s[i])),
        entries_map(s)[key_of(s[i])] == value_of(s[i]),
{
    let k = key_of(s[i]);
    assert(holds_key(s, k));
    let j = choose|j: int| 0 <= j < s.len() && key_of(s[j]) == k;
    assert(j == i);
}

proof fn lemma_empty<C>(s: Seq<Entry<C>>)
    requires
        s.len() == 0,
    ensures
        distinct_keys(s),
        entries_map(s) == Map::<SubscriptionKey, (SubOption, C)>::empty(),
{
    assert(entries_map(s) =~= Map::<SubscriptionKey, (SubOption, C)>::empty());
}

proof fn lemma_push<C>(s: Seq<Entry<C>>, e: Entry<C>)
    requires
        distinct_keys(s),
        !holds_key(s, key_of(e)),
    ensures
        distinct_keys(s.push(e)),
        entries_map(s.push(e)) == entries_map(s).insert(key_of(e), value_of(e)),
{
    let t = s.push(e);
    assert(t[s.len() as int] == e);
    assert forall|i: int, j: int|
        0 <= i < t.len() && 0 <= j < t.len() && i != j implies key_of(#[trigger] t[i]) != key_of(
        #[trigger] t[j],
    ) by {
        if i < s.len() && j < s.len() {
            assert(t[i] == s[i] && t[j] == s[j]);
        } else if i < s.len() {
            assert(t[i] == s[i]);
        } else {
            assert(t[j] == s[j]);
        }
    }
    let m = entries_map(s).insert(key_of(e), value_of(e));
    assert forall|k: SubscriptionKey| #[trigger] entries_map(t).contains_key(k) <==> m.contains_key(k) by {
        if holds_key(s, k) {
            let i = choose|i: int| 0 <= i < s.len() && key_of(s[i]) == k;
            assert(t[i] == s[i]);
        }
        if holds_key(t, k) {
            let i = choose|i: int| 0 <= i < t.len() && key_of(t[i]) == k;
            if i < s.len() {
                assert(t[i] == s[i]);
            }
        }
        if k == key_of(e) {
            assert(key_of(t[s.len() as int]) == k);
        }
    }
    assert forall|k: SubscriptionKey| #[trigger] entries_map(t).contains_key(k) implies entries_map(t)[k]
        == m[k] by {
        let i = choose|i: int| 0 <= i < t.len() && key_of(t[i]) == k;
        lemma_lookup(t, i);
        if i < s.len() {
            assert(t[i] == s[i]);
            lemma_lookup(s, i);
        }
    }
    assert(entries_map(t) =~= m);
}

proof fn lemma_update<C>(s: Seq<Entry<C>>, i: int, e: Entry<C>)
    requires
        distinct_keys(s),
        0 <= i < s.len(),
        key_of(e) == key_of(s[i]),
    ensures
        distinct_keys(s.update(i, e)),
        entries_map(s.update(i, e)) == entries_map(s).insert(key_of(e), value_of(e)),
{
    let t = s.update(i, e);
    assert forall|a: int, b: int|
        0 <= a < t.len() && 0 <= b < t.len() && a != b implies key_of(#[trigger] t[a]) != key_of(
        #[trigger] t[b],
    ) by {
        assert(key_of(t[a]) == key_of(s[a]));
        assert(key_of(t[b]) == key_of(s[b]));
    }
    let m = entries_map(s).insert(key_of(e), value_of(e));
    assert forall|k: SubscriptionKey| #[trigger] entries_map(t).contains_key(k) <==> m.contains_key(k) by {
        if holds_key(s, k) {
            let a = choose|a: int| 0 <= a < s.len() && key_of(s[a]) == k;
            assert(key_of(t[a]) == key_of(s[a]));
        }
        if holds_key(t, k) {
            let a = choose|a: int| 0 <= a < t.len() && key_of(t[a]) == k;
            assert(key_of(t[a]) == key_of(s[a]));
        }
        lemma_lookup(s, i);
    }
    assert forall|k: SubscriptionKey| #[trigger] entries_map(t).contains_key(k) implies entries_map(t)[k]
        == m[k] by {
        let a = choose|a: int| 0 <= a < t.len() && key_of(t[a]) == k;
        lemma_lookup(t, a);
        if a != i {
            assert(t[a] == s[a]);
            lemma_lookup(s, a);
        }
    }
    assert(entries_map(t) =~= m);
}

proof fn lemma_remove<C>(s: Seq<Entry<C>>, i: int)
    requires
        distinct_keys(s),
        0 <= i < s.len(),
    ensures
        distinct_keys(s.remove(i)),
        entries_map(s.remove(i)) == entries_map(s).remove(key_of(s[i])),
{
    let t = s.remove(i);
    assert forall|a: int, b: int|
        0 <= a < t.len() && 0 <= b < t.len() && a != b implies key_of(#[trigger] t[a]) != key_of(
        #[trigger] t[b],
    ) by {
        let sa = if a < i { a } else { a + 1 };
        let sb = if b < i { b } else { b + 1 };
        assert(t[a] == s[sa]);
        assert(t[b] == s[sb]);
    }
    let m = entries_map(s).remove(key_of(s[i]));
    assert forall|k: SubscriptionKey| #[trigger] entries_map(t).contains_key(k) <==> m.contains_key(k) by {
        if holds_key(s, k) && k != key_of(s[i]) {
            let a = choose|a: int| 0 <= a < s.len() && key_of(s[a]) == k;
            let ta = if a < i { a } else { a - 1 };
            assert(t[ta] == s[a]);
        }
        if holds_key(t, k) {
            let a = choose|a: int| 0 <= a < t.len() && key_of(t[a]) == k;
            let sa = if a < i { a } else { a + 1 };
            assert(t[a] == s[sa]);
        }
    }
    assert forall|k: SubscriptionKey| #[trigger] entries_map(t).contains_key(k) implies entries_map(t)[k]
        == m[k] by {
        let a = choose|a: int| 0 <= a < t.len() && key_of(t[a]) == k;
        let sa = if a < i { a } else { a + 1 };
        assert(t[a] == s[sa]);
        lemma_lookup(t, a);
        lemma_lookup(s, sa);
    }
    assert(entries_map(t) =~= m);
}

/// An order-preserving selection of the entries that satisfy `keep` has as
/// its model the part of the original model that satisfies `keep`.
proof fn lemma_selection<C>(
    s: Seq<Entry<C>>,
    sel: Seq<Entry<C>>,
    pos: Seq<int>,
    keep: spec_fn(SubscriptionKey, (SubOption, C)) -> bool,
)
    requires
        distinct_keys(s),
        selects(s, sel, pos),
        forall|j: int| 0 <= j < sel.len() ==> keep(key_of(#[trigger] sel[j]), value_of(sel[j])),
        forall|i: int|
            0 <= i < s.len() && keep(key_of(#[trigger] s[i]), value_of(s[i])) ==> exists|j: int|
                0 <= j < pos.len() && #[trigger] pos[j] == i,
    ensures
        distinct_keys(sel),
        forall|k: SubscriptionKey| #[trigger]
            entries_map(sel).contains_key(k) <==> entries_map(s).contains_key(k) && keep(
                k,
                entries_map(s)[k],
            ),
        forall|k: SubscriptionKey| #[trigger]
            entries_map(sel).contains_key(k) ==> entries_map(sel)[k] == entries_map(s)[k],
{
    assert forall|a: int, b: int|
        0 <= a < sel.len() && 0 <= b < sel.len() && a != b implies key_of(#[trigger] sel[a])
        != key_of(#[trigger] sel[b]) by {
        if a < b {
            assert(pos[a] < pos[b]);
        } else {
            assert(pos[b] < pos[a]);
        }
    }
    assert forall|k: SubscriptionKey| #[trigger]
        entries_map(sel).contains_key(k) <==> entries_map(s).contains_key(k) && keep(
            k,
            entries_map(s)[k],
        ) by {
        if holds_key(sel, k) {
            let j = choose|j: int| 0 <= j < sel.len() && key_of(sel[j]) == k;
            lemma_lookup(s, pos[j]);
        }
        if holds_key(s, k) {
            let i = choose|i: int| 0 <= i < s.len() && key_of(s[i]) == k;
            lemma_lookup(s, i);
            if keep(k, entries_map(s)[k]) {
                let j = choose|j: int| 0 <= j < pos.len() && #[trigger] pos[j] == i;
                assert(key_of(sel[j]) == k);
            }
        }
    }
    assert forall|k: SubscriptionKey| #[trigger] entries_map(sel).contains_key(k) implies entries_map(
        sel,
    )[k] == entries_map(s)[k] by {
        let j = choose|j: int| 0 <= j < sel.len() && key_of(sel[j]) == k;
        lemma_lookup(sel, j);
        lemma_lookup(s, pos[j]);
    }
}

// ---------------------------------------------------------------------------
// Executable registry
// ---------------------------------------------------------------------------

/// The index of the entry stored under (event, target, name), if any.
fn position<C>(entries: &Vec<Entry<C>>, event: &String, target: &String, name: &String) -> (r:
    Option<usize>)
    ensures
        match r {
            Some(i) => i < entries.len() && key_of(entries@[i as int]) == (event@, target@, name@),
            None => !holds_key(entries@, (event@, target@, name@)),
        },
{
    let mut i: usize = 0;
    while i < entries.len()
        invariant
            i <= entries.len(),
            forall|j: int| 0 <= j < i ==> key_of(#[trigger] entries@[j]) != (event@, target@, name@),
        decreases entries.len() - i,
    {
        let e = &entries[i];
        if e.event == *event && e.target == *target && e.name == *name {
            return Some(i);
        }
        i += 1;
    }
    None
}

/// The deliveries mirror, in order, entries of `event` found at `pos`.
spec fn delivered<C: Clone>(
    s: Seq<Entry<C>>,
    event: Seq<char>,
    ds: Seq<Delivery<C>>,
    pos: Seq<int>,
) -> bool {
    &&& pos.len() == ds.len()
    &&& forall|j: int|
        0 <= j < pos.len() ==> {
            let e = s[#[trigger] pos[j]];
            &&& 0 <= pos[j] < s.len()
            &&& e.event@ == event
            &&& ds[j].target@ == e.target@
            &&& ds[j].name@ == e.name@
            &&& ds[j].option == e.option
            &&& cloned(e.callback, ds[j].callback)
        }
    &&& forall|j1: int, j2: int| 0 <= j1 < j2 < pos.len() ==> #[trigger] pos[j1] < #[trigger] pos[j2]
}

proof fn lemma_delivered<C: Clone>(
    s: Seq<Entry<C>>,
    event: Seq<char>,
    ds: Seq<Delivery<C>>,
    pos: Seq<int>,
)
    requires
        distinct_keys(s),
        delivered(s, event, ds, pos),
        forall|x: int|
            0 <= x < s.len() && (#[trigger] s[x]).event@ == event ==> exists|j: int|
                0 <= j < pos.len() && #[trigger] pos[j] == x,
    ensures
        delivers_to(entries_map(s), event, ds),
{
    let m = entries_map(s);
    assert forall|j: int| 0 <= j < ds.len() implies {
        let k = delivery_key(event, #[trigger] ds[j]);
        &&& audience(m, event).contains(k)
        &&& m[k].0 == ds[j].option
        &&& cloned(m[k].1, ds[j].callback)
    } by {
        lemma_lookup(s, pos[j]);
        assert(key_of(s[pos[j]]) == delivery_key(event, ds[j]));
    }
    assert forall|j1: int, j2: int|
        0 <= j1 < ds.len() && 0 <= j2 < ds.len() && j1 != j2 implies delivery_key(
        event,
        #[trigger] ds[j1],
    ) != delivery_key(event, #[trigger] ds[j2]) by {
        if j1 < j2 {
            assert(pos[j1] < pos[j2]);
        } else {
            assert(pos[j2] < pos[j1]);
        }
        assert(key_of(s[pos[j1]]) == delivery_key(event, ds[j1]));
        assert(key_of(s[pos[j2]]) == delivery_key(event, ds[j2]));
    }
    assert forall|k: SubscriptionKey| #[trigger] audience(m, event).contains(k) implies exists|j: int|
        0 <= j < ds.len() && delivery_key(event, #[trigger] ds[j]) == k by {
        let x = choose|x: int| 0 <= x < s.len() && key_of(s[x]) == k;
        let j = choose|j: int| 0 <= j < pos.len() && #[trigger] pos[j] == x;
        assert(delivery_key(event, ds[j]) == k);
    }
}

/// Which entries a pass over the registry drops.
enum Discard {
    /// Every callback of this target.
    Target(String),
    /// Every one-shot callback.
    Once,
}

spec fn discards<C>(
    rule: Discard,
    event: Seq<char>,
    k: SubscriptionKey,
    v: (SubOption, C),
) -> bool {
    k.0 == event && match rule {
        Discard::Target(t) => k.1 == t@,
        Discard::Once => v.0 == SubOption::Once,
    }
}

fn discards_entry<C>(rule: &Discard, event: &String, e: &Entry<C>) -> (r: bool)
    ensures
        r == discards(*rule, event@, key_of(*e), value_of(*e)),
{
    if e.event == *event {
        match rule {
            Discard::Target(t) => e.target == *t,
            Discard::Once => e.option == SubOption::Once,
        }
    } else {
        false
    }
}

/// Keeps, in order, the entries that `rule` does not drop for `event`, and
/// tells whether it dropped any.
fn retain_entries<C>(entries: Vec<Entry<C>>, event: &String, rule: &Discard) -> (r: (
    Vec<Entry<C>>,
    bool,
))
    requires
        distinct_keys(entries@),
    ensures
        distinct_keys(r.0@),
        forall|k: SubscriptionKey| #[trigger]
            entries_map(r.0@).contains_key(k) <==> entries_map(entries@).contains_key(k)
                && !discards(*rule, event@, k, entries_map(entries@)[k]),
        forall|k: SubscriptionKey| #[trigger]
            entries_map(r.0@).contains_key(k) ==> entries_map(r.0@)[k] == entries_map(entries@)[k],
        r.1 == (exists|k: SubscriptionKey| #[trigger]
            entries_map(entries@).contains_key(k) && discards(
                *rule,
                event@,
                k,
                entries_map(entries@)[k],
            )),
{
    let ghost s = entries@;
    let mut kept: Vec<Entry<C>> = Vec::new();
    let ghost mut pos: Seq<int> = Seq::empty();
    let mut dropped = false;
    for e in it: entries.into_iter()
        invariant
            it.seq() == s,
            distinct_keys(s),
            selects(s, kept@, pos),
            forall|j: int| 0 <= j < pos.len() ==> #[trigger] pos[j] < it.index(),
            forall|j: int|
                0 <= j < kept@.len() ==> !discards(
                    *rule,
                    event@,
                    key_of(#[trigger] kept@[j]),
                    value_of(kept@[j]),
                ),
            forall|i: int|
                0 <= i < it.index() && !discards(*rule, event@, key_of(#[trigger] s[i]), value_of(s[i]))
                    ==> exists|j: int| 0 <= j < pos.len() && #[trigger] pos[j] == i,
            dropped == (exists|i: int|
                0 <= i < it.index() && discards(*rule, event@, key_of(#[trigger] s[i]), value_of(s[i]))),
    {
        let ghost idx = it.index();
        let ghost before = pos;
        if discards_entry(rule, event, &e) {
            dropped = true;
        } else {
            proof {
                pos = pos.push(idx);
            }
            kept.push(e);
        }
        proof {
            assert forall|i: int|
                0 <= i <= idx && !discards(*rule, event@, key_of(#[trigger] s[i]), value_of(s[i]))
                implies exists|j: int| 0 <= j < pos.len() && #[trigger] pos[j] == i by {
                if i < idx {
                    let j = choose|j: int| 0 <= j < before.len() && #[trigger] before[j] == i;
                    assert(pos[j] == i);
                } else {
                    assert(pos[pos.len() - 1] == i);
                }
            }
        }
    }
    proof {
        let keep = |k: SubscriptionKey, v: (SubOption, C)| !discards(*rule, event@, k, v);
        lemma_selection(s, kept@, pos, keep);
        if dropped {
            let i = choose|i: int|
                0 <= i < s.len() && discards(*rule, event@, key_of(#[trigger] s[i]), value_of(s[i]));
            lemma_lookup(s, i);
            assert(entries_map(s).contains_key(key_of(s[i])));
        }
        if exists|k: SubscriptionKey| #[trigger]
            entries_map(s).contains_key(k) && discards(*rule, event@, k, entries_map(s)[k]) {
            let k = choose|k: SubscriptionKey| #[trigger]
                entries_map(s).contains_key(k) && discards(*rule, event@, k, entries_map(s)[k]);
            let i = choose|i: int| 0 <= i < s.len() && key_of(s[i]) == k;
            lemma_lookup(s, i);
        }
    }
    (kept, dropped)
}

/// A delivery for every entry of `event`, in the order they are stored.
fn collect_deliveries<C: Clone>(entries: &Vec<Entry<C>>, ev: &String) -> (ds: Vec<Delivery<C>>)
    requires
        distinct_keys(entries@),
    ensures
        delivers_to(entries_map(entries@), ev@, ds@),
{
    let ghost s = entries@;
    let mut deliveries: Vec<Delivery<C>> = Vec::new();
    let ghost mut pos: Seq<int> = Seq::empty();
    let mut i: usize = 0;
    while i < entries.len()
        invariant
            s == entries@,
            distinct_keys(s),
            i <= s.len(),
            delivered(s, ev@, deliveries@, pos),
            forall|j: int| 0 <= j < pos.len() ==> #[trigger] pos[j] < i,
            forall|x: int|
                0 <= x < i && (#[trigger] s[x]).event@ == ev@ ==> exists|j: int|
                    0 <= j < pos.len() && #[trigger] pos[j] == x,
        decreases s.len() - i,
    {
        let e = &entries[i];
        let ghost before = pos;
        if e.event == *ev {
            let d = Delivery {
                target: e.target.clone(),
                name: e.name.clone(),
                option: e.option,
                callback: e.callback.clone(),
            };
            proof {
                pos = pos.push(i as int);
            }
            deliveries.push(d);
        }
        proof {
            assert forall|x: int|
                0 <= x <= i && (#[trigger] s[x]).event@ == ev@ implies exists|j: int|
                    0 <= j < pos.len() && #[trigger] pos[j] == x by {
                if x < i {
                    let j = choose|j: int| 0 <= j < before.len() && #[trigger] before[j] == x;
                    assert(pos[j] == x);
                } else {
                    assert(pos[pos.len() - 1] == x);
                }
            }
        }
        i += 1;
    }
    proof {
        lemma_delivered(s, ev@, deliveries@, pos);
    }
    deliveries
}

impl<C> View for PubSub<C> {
    type V = Map<SubscriptionKey, (SubOption, C)>;

    closed spec fn view(&self) -> Map<SubscriptionKey, (SubOption, C)> {
        entries_map(self.entries@)
    }
}

impl<C> Default for PubSub<C> {
    /// An empty registry.
    fn default() -> (bus: Self)
        ensures
            bus@ == Map::<SubscriptionKey, (SubOption, C)>::empty(),
    {
        PubSub::new()
    }
}

impl<C> PubSub<C> {
    #[verifier::type_invariant]
    spec fn well_formed(self) -> bool {
        distinct_keys(self.entries@)
    }

    /// An empty registry.
    pub fn new() -> (bus: Self)
        ensures
            bus@ == Map::<SubscriptionKey, (SubOption, C)>::empty(),
    {
        let entries: Vec<Entry<C>> = Vec::new();
        proof {
            lemma_empty(entries@);
        }
        PubSub { entries }
    }

    /// Subscribes `callback` to `event` under `target_id` and `callback_name`,
    /// replacing a callback stored under the same three names.
    pub fn subscribe(
        &mut self,
        event: String,
        callback_name: String,
        target_id: String,
        option: SubOption,
        callback: C,
    ) -> (r: Result<(), PubSubError>)
        ensures
            r == Ok::<(), PubSubError>(()),
            final(self)@ == after_subscribe(
                old(self)@,
                event@,
                target_id@,
                callback_name@,
                option,
                callback,
            ),
    {
        proof {
            use_type_invariant(&*self);
        }
        let found = position(&self.entries, &event, &target_id, &callback_name);
        let entry = Entry { event, target: target_id, name: callback_name, option, callback };
        let ghost added = entry;
        let mut entries: Vec<Entry<C>> = Vec::new();
        std::mem::swap(&mut entries, &mut self.entries);
        let ghost before = entries@;
        match found {
            Some(i) => {
                entries.set(i, entry);
                proof {
                    lemma_update(before, i as int, added);
                }
            },
            None => {
                entries.push(entry);
                proof {
                    lemma_push(before, added);
                }
            },
        }
        self.entries = entries;
        Ok(())
    }

    /// Removes the callback `callback_name` of `target_id` from `event`, or,
    /// with no callback name, every callback of `target_id` for `event`.
    /// Tells whether anything was removed.
    pub fn unsubscribe(
        &mut self,
        event: &str,
        callback_name: Option<&str>,
        target_id: &str,
    ) -> (r: Result<bool, PubSubError>)
        ensures
            r == Ok::<bool, PubSubError>(
                unsubscribe_removes(old(self)@, event@, name_view(callback_name), target_id@),
            ),
            final(self)@ == after_unsubscribe(
                old(self)@,
                event@,
                name_view(callback_name),
                target_id@,
            ),
    {
        proof {
            use_type_invariant(&*self);
        }
        let ghost m = self@;
        let ghost scope = unsubscribe_scope(event@, name_view(callback_name), target_id@);
        let event = String::from_str(event);
        let target = String::from_str(target_id);
        match callback_name {
            Some(n) => {
                let name = String::from_str(n);
                let ghost k = (event@, target@, name@);
                proof {
                    assert(scope =~= Set::empty().insert(k));
                }
                match position(&self.entries, &event, &target, &name) {
                    Some(i) => {
                        let mut entries: Vec<Entry<C>> = Vec::new();
                        std::mem::swap(&mut entries, &mut self.entries);
                        let ghost before = entries@;
                        entries.remove(i);
                        proof {
                            lemma_remove(before, i as int);
                            lemma_lookup(before, i as int);
                            assert(m.contains_key(k) && scope.contains(k));
                            assert(entries_map(entries@) =~= m.remove_keys(scope));
                        }
                        self.entries = entries;
                        Ok(true)
                    },
                    None => {
                        proof {
                            assert(!m.contains_key(k));
                            assert(m.remove_keys(scope) =~= m);
                        }
                        Ok(false)
                    },
                }
            },
            None => {
                let mut entries: Vec<Entry<C>> = Vec::new();
                std::mem::swap(&mut entries, &mut self.entries);
                let ghost before = entries@;
                let rule = Discard::Target(target);
                let (kept, dropped) = retain_entries(entries, &event, &rule);
                proof {
                    assert forall|k: SubscriptionKey|
                        m.contains_key(k) implies (scope.contains(k) <==> discards(
                            rule,
                            event@,
                            k,
                            m[k],
                        )) by {}
                    assert(entries_map(kept@) =~= m.remove_keys(scope));
                }
                self.entries = kept;
                Ok(dropped)
            },
        }
    }

    /// Takes a publication of `event` in one step: a delivery for every
    /// subscription to `event`, and, since each of them now receives the
    /// event, every one-shot subscription to `event` leaves the registry.
    /// A one-shot subscription thus reaches exactly one publication, and one
    /// made later is kept until a later publication takes it.
    pub fn take_publication(&mut self, event: &str) -> (ds: Vec<Delivery<C>>) where C: Clone
        ensures
            delivers_to(old(self)@, event@, ds@),
            final(self)@ == after_publish(old(self)@, event@),
    {
        proof {
            use_type_invariant(&*self);
        }
        let ghost m = self@;
        let ev = String::from_str(event);
        let deliveries = collect_deliveries(&self.entries, &ev);
        let mut entries: Vec<Entry<C>> = Vec::new();
        std::mem::swap(&mut entries, &mut self.entries);
        let (kept, _) = retain_entries(entries, &ev, &Discard::Once);
        proof {
            assert(entries_map(kept@) =~= after_publish(m, event@));
        }
        self.entries = kept;
        deliveries
    }
}

} // verus!
