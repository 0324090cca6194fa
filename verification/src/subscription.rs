//! Events, and those who watch for them.

use crate::key::{copy_bytes, is_same};
use vstd::prelude::*;

verus! {

/// The number of events that may wait for a subscriber before writes should wait too.
pub const BUFFER_SIZE: usize = 1024;

/// What has happened to a key.
#[derive(Debug, PartialEq, Eq)]
pub enum Event {
    /// A value was put under a key.
    Put(Vec<u8>, Vec<u8>),
    /// A partial value was merged into what was under a key.
    Merge(Vec<u8>, Vec<u8>),
    /// A key was taken out.
    Del(Vec<u8>),
}

/// What has happened to a key, the key and the value as sequences.
#[verifier::ext_equal]
pub enum EventView {
    Put(Seq<u8>, Seq<u8>),
    Merge(Seq<u8>, Seq<u8>),
    Del(Seq<u8>),
}

impl EventView {
    /// The key to which something has happened.
    pub open spec fn key(self) -> Seq<u8> {
        match self {
            EventView::Put(key, _) => key,
            EventView::Merge(key, _) => key,
            EventView::Del(key) => key,
        }
    }
}

impl View for Event {
    type V = EventView;

    open spec fn view(&self) -> EventView {
        match self {
            Event::Put(key, value) => EventView::Put(key@, value@),
            Event::Merge(key, value) => EventView::Merge(key@, value@),
            Event::Del(key) => EventView::Del(key@),
        }
    }
}

impl Event {
    /// The key to which something has happened.
    pub fn key(&self) -> (key: &[u8])
        ensures
            key@ == self@.key(),
    {
        match self {
            Event::Put(key, _) => key.as_slice(),
            Event::Merge(key, _) => key.as_slice(),
            Event::Del(key) => key.as_slice(),
        }
    }

    /// Copies the event.
    pub fn duplicate(&self) -> (copy: Event)
        ensures
            copy@ == self@,
    {
        match self {
            Event::Put(key, value) => Event::Put(
                copy_bytes(key.as_slice()),
                copy_bytes(value.as_slice()),
            ),
            Event::Merge(key, value) => Event::Merge(
                copy_bytes(key.as_slice()),
                copy_bytes(value.as_slice()),
            ),
            Event::Del(key) => Event::Del(copy_bytes(key.as_slice())),
        }
    }
}

/// Whether `key` starts with `prefix`.
pub open spec fn starts_with(key: Seq<u8>, prefix: Seq<u8>) -> bool {
    prefix.len() <= key.len() && key.subrange(0, prefix.len() as int) == prefix
}

/// A key starts with a prefix exactly if it is the prefix with some bytes after it, or
/// none.
pub proof fn law_prefix_and_rest(key: Seq<u8>, prefix: Seq<u8>)
    ensures
        starts_with(key, prefix) <==> exists|rest: Seq<u8>| key == #[trigger] prefix.add(rest),
{
    let n = prefix.len() as int;
    if starts_with(key, prefix) {
        let rest = key.subrange(n, key.len() as int);
        assert(key =~= prefix.add(rest));
    }
    assert forall|rest: Seq<u8>| key == #[trigger] prefix.add(rest) implies starts_with(
        key,
        prefix,
    ) by {
        assert(key.subrange(0, n) =~= prefix);
    }
}

/// Tells whether `key` starts with `prefix`.
pub fn has_prefix(key: &[u8], prefix: &[u8]) -> (r: bool)
    ensures
        r == starts_with(key@, prefix@),
        r == exists|rest: Seq<u8>| key@ == #[trigger] prefix@.add(rest),
{
    proof {
        law_prefix_and_rest(key@, prefix@);
    }
    if prefix.len() > key.len() {
        return false;
    }
    let start = vstd::slice::slice_subrange(key, 0, prefix.len());
    is_same(start, prefix)
}

/// A watcher: the prefix it watches, the events that wait for it, oldest first, and
/// whether it has stopped watching.
#[verifier::ext_equal]
pub struct WatcherView {
    pub prefix: Seq<u8>,
    pub queue: Seq<EventView>,
    pub gone: bool,
}

impl WatcherView {
    /// Whether the watcher is told what happens to `key`.
    pub open spec fn listens(self, key: Seq<u8>) -> bool {
        !self.gone && starts_with(key, self.prefix)
    }

    /// The watcher after an event.
    pub open spec fn after(self, event: EventView) -> WatcherView {
        if self.listens(event.key()) {
            WatcherView { queue: self.queue.push(event), ..self }
        } else {
            self
        }
    }
}

/// Whether no watcher of `key` has its buffer full.
pub open spec fn room_for(watchers: Seq<WatcherView>, key: Seq<u8>) -> bool {
    forall|i: int|
        #![trigger watchers[i]]
        0 <= i < watchers.len() && watchers[i].listens(key) ==> watchers[i].queue.len()
            < BUFFER_SIZE
}

/// Whether all watchers have room for one event on each of `keys`.
pub open spec fn room_for_all(watchers: Seq<WatcherView>, keys: Set<Seq<u8>>) -> bool {
    forall|i: int|
        #![trigger watchers[i]]
        0 <= i < watchers.len() && !watchers[i].gone ==> watchers[i].queue.len() + keys.filter(
            |key: Seq<u8>| starts_with(key, watchers[i].prefix),
        ).len() <= BUFFER_SIZE
}

/// Where there is room for events on several keys there is room for one on any of
/// them, and after it for the others.
pub proof fn lemma_room_for_all(
    watchers: Seq<WatcherView>,
    keys: Set<Seq<u8>>,
    event: EventView,
)
    requires
        keys.finite(),
        keys.contains(event.key()),
        room_for_all(watchers, keys),
    ensures
        room_for(watchers, event.key()),
        room_for_all(published(watchers, event), keys.remove(event.key())),
{
    broadcast use vstd::set::group_set_axioms;

    let key = event.key();
    let after = published(watchers, event);
    assert forall|i: int| #![trigger watchers[i]] 0 <= i < watchers.len() && watchers[i].listens(
        key,
    ) implies watchers[i].queue.len() < BUFFER_SIZE by {
        let seen = |k: Seq<u8>| starts_with(k, watchers[i].prefix);
        keys.lemma_len_filter(seen);
        assert(keys.filter(seen).contains(key));
        assert(keys.filter(seen).remove(key).len() + 1 == keys.filter(seen).len());
    }
    assert forall|i: int| #![trigger after[i]] 0 <= i < after.len() && !after[i].gone implies after[i].queue.len()
        + keys.remove(key).filter(|k: Seq<u8>| starts_with(k, after[i].prefix)).len()
        <= BUFFER_SIZE by {
        let seen = |k: Seq<u8>| starts_with(k, watchers[i].prefix);
        assert(after[i] == watchers[i].after(event));
        assert(after[i].prefix == watchers[i].prefix);
        keys.lemma_len_filter(seen);
        let less = keys.remove(key).filter(seen);
        assert(less =~= keys.filter(seen).remove(key));
        assert(keys.remove(key).filter(|k: Seq<u8>| starts_with(k, after[i].prefix)) =~= less);
    }
}

/// Whether no buffer holds more than it may.
pub open spec fn buffers_ok(watchers: Seq<WatcherView>) -> bool {
    forall|i: int|
        #![trigger watchers[i]]
        0 <= i < watchers.len() ==> watchers[i].queue.len() <= BUFFER_SIZE
}

/// The watchers after an event.
pub open spec fn published(watchers: Seq<WatcherView>, event: EventView) -> Seq<WatcherView> {
    Seq::new(watchers.len(), |i: int| watchers[i].after(event))
}

/// The watchers after a run of events.
pub open spec fn published_all(watchers: Seq<WatcherView>, events: Seq<EventView>) -> Seq<
    WatcherView,
>
    decreases events.len(),
{
    if events.len() == 0 {
        watchers
    } else {
        published(published_all(watchers, events.drop_last()), events.last())
    }
}

/// All watchers see the events of their prefix, each in the order of the run.
pub proof fn law_events_in_order(watchers: Seq<WatcherView>, events: Seq<EventView>)
    ensures
        published_all(watchers, events).len() == watchers.len(),
        forall|i: int|
            #![trigger published_all(watchers, events)[i]]
            0 <= i < watchers.len() ==> published_all(watchers, events)[i].prefix
                == watchers[i].prefix && published_all(watchers, events)[i].gone
                == watchers[i].gone && published_all(watchers, events)[i].queue
                == watchers[i].queue + events.filter(
                |event: EventView| watchers[i].listens(event.key()),
            ),
    decreases events.len(),
{
    if events.len() == 0 {
        assert forall|i: int|
            #![trigger published_all(watchers, events)[i]]
            0 <= i < watchers.len() implies published_all(watchers, events)[i].queue
            == watchers[i].queue + events.filter(
            |event: EventView| watchers[i].listens(event.key()),
        ) by {
            reveal(Seq::filter);
            assert(watchers[i].queue + Seq::<EventView>::empty() =~= watchers[i].queue);
            assert(events.filter(|event: EventView| watchers[i].listens(event.key()))
                =~= Seq::empty());
        }
    } else {
        law_events_in_order(watchers, events.drop_last());
        let before = published_all(watchers, events.drop_last());
        assert forall|i: int|
            #![trigger published_all(watchers, events)[i]]
            0 <= i < watchers.len() implies published_all(watchers, events)[i].prefix
            == watchers[i].prefix && published_all(watchers, events)[i].gone == watchers[i].gone
            && published_all(watchers, events)[i].queue
            == watchers[i].queue + events.filter(
            |event: EventView| watchers[i].listens(event.key()),
        ) by {
            let seen = |event: EventView| watchers[i].listens(event.key());
            assert(before[i].prefix == watchers[i].prefix && before[i].gone == watchers[i].gone);
            reveal(Seq::filter);
            if seen(events.last()) {
                assert(events.filter(seen) == events.drop_last().filter(seen).push(events.last()));
            } else {
                assert(events.filter(seen) == events.drop_last().filter(seen));
            }
            assert(published_all(watchers, events)[i] == before[i].after(events.last()));
            assert(published_all(watchers, events)[i].queue =~= watchers[i].queue + events.filter(
                seen,
            ));
        }
    }
}

/// A watcher.
#[derive(Debug)]
struct Watcher {
    prefix: Vec<u8>,
    queue: Vec<Event>,
    gone: bool,
}

impl Watcher {
    spec fn view(&self) -> WatcherView {
        WatcherView {
            prefix: self.prefix@,
            queue: Seq::new(self.queue@.len(), |i: int| self.queue@[i]@),
            gone: self.gone,
        }
    }
}

/// All watchers of a tree.
#[derive(Debug)]
pub struct Subscriptions {
    watchers: Vec<Watcher>,
}

/// Stands for one watcher of a tree.
#[derive(Debug)]
pub struct Subscriber {
    id: usize,
}

impl View for Subscriber {
    type V = int;

    closed spec fn view(&self) -> int {
        self.id as int
    }
}

impl View for Subscriptions {
    type V = Seq<WatcherView>;

    closed spec fn view(&self) -> Seq<WatcherView> {
        Seq::new(self.watchers@.len(), |i: int| self.watchers@[i].view())
    }
}

impl Subscriptions {
    /// No watchers.
    pub fn new() -> (subscriptions: Subscriptions)
        ensures
            subscriptions@ == Seq::<WatcherView>::empty(),
    {
        let subscriptions = Subscriptions { watchers: Vec::new() };
        assert(subscriptions@ =~= Seq::<WatcherView>::empty());
        subscriptions
    }

    /// Adds a watcher for the keys that start with `prefix`.
    pub fn register(&mut self, prefix: Vec<u8>) -> (subscriber: Subscriber)
        ensures
            subscriber@ == old(self)@.len(),
            final(self)@ == old(self)@.push(
                (WatcherView { prefix: prefix@, queue: Seq::empty(), gone: false }),
            ),
    {
        let id: usize = self.watchers.len();
        let ghost before = self@;
        let watcher = Watcher { prefix, queue: Vec::new(), gone: false };
        assert(watcher.view().queue =~= Seq::empty());
        self.watchers.push(watcher);
        assert(self@ =~= before.push(WatcherView { prefix: prefix@, queue: Seq::empty(), gone: false }));
        Subscriber { id }
    }

    /// Tells whether no watcher of `key` has its buffer full.
    pub fn has_room(&self, key: &[u8]) -> (r: bool)
        ensures
            r == room_for(self@, key@),
    {
        let mut i: usize = 0;
        while i < self.watchers.len()
            invariant
                i <= self.watchers@.len(),
                forall|j: int|
                    #![trigger self@[j]]
                    0 <= j < i && self@[j].listens(key@) ==> self@[j].queue.len() < BUFFER_SIZE,
            decreases self.watchers@.len() - i,
        {
            assert(self@[i as int] == self.watchers@[i as int].view());
            if !self.watchers[i].gone && has_prefix(key, self.watchers[i].prefix.as_slice())
                && self.watchers[i].queue.len() >= BUFFER_SIZE {
                return false;
            }
            i = i + 1;
        }
        true
    }

    /// Hands an event to all who watch its key. They must have room for it.
    pub fn publish(&mut self, event: Event)
        requires
            buffers_ok(old(self)@),
            room_for(old(self)@, event@.key()),
        ensures
            final(self)@ == published(old(self)@, event@),
            buffers_ok(final(self)@),
    {
        let ghost before = self@;
        let mut i: usize = 0;
        while i < self.watchers.len()
            invariant
                i <= self.watchers@.len(),
                self@.len() == before.len(),
                forall|j: int| #![trigger self@[j]] 0 <= j < i ==> self@[j] == before[j].after(event@),
                forall|j: int| #![trigger self@[j]] i <= j < self@.len() ==> self@[j] == before[j],
            decreases self.watchers@.len() - i,
        {
            let ghost prior = self@;
            assert(self@[i as int] == self.watchers@[i as int].view());
            assert(self@[i as int] == before[i as int]);
            if !self.watchers[i].gone && has_prefix(
                event.key(),
                self.watchers[i].prefix.as_slice(),
            ) {
                let ghost watcher = self.watchers@[i as int];
                let copy = event.duplicate();
                self.watchers[i].queue.push(copy);
                proof {
                    let now = self.watchers@[i as int];
                    assert(now.view().queue =~= watcher.view().queue.push(event@));
                    assert(self@ =~= prior.update(i as int, now.view()));
                }
            }
            i = i + 1;
        }
        assert(self@ =~= published(before, event@));
        assert(buffers_ok(self@)) by {
            assert forall|j: int| #![trigger self@[j]] 0 <= j < self@.len() implies self@[j].queue.len()
                <= BUFFER_SIZE by {
                assert(self@[j] == before[j].after(event@));
            }
        }
    }

    /// Takes the oldest event that waits for a watcher.
    pub fn next(&mut self, subscriber: &Subscriber) -> (event: Option<Event>)
        ensures
            0 <= subscriber@ < old(self)@.len() && old(self)@[subscriber@].queue.len() > 0 ==> {
                let watcher = old(self)@[subscriber@];
                &&& event matches Some(e)
                &&& e@ == watcher.queue[0]
                &&& final(self)@ == old(self)@.update(
                    subscriber@,
                    (WatcherView { queue: watcher.queue.skip(1), ..watcher }),
                )
            },
            !(0 <= subscriber@ < old(self)@.len() && old(self)@[subscriber@].queue.len() > 0) ==> {
                &&& event is None
                &&& final(self)@ == old(self)@
            },
    {
        let i: usize = subscriber.id;
        if i >= self.watchers.len() {
            return None;
        }
        let ghost before = self@;
        assert(before[i as int] == self.watchers@[i as int].view());
        if self.watchers[i].queue.len() == 0 {
            return None;
        }
        let ghost watcher = self.watchers@[i as int];
        let event = self.watchers[i].queue.remove(0);
        proof {
            let now = self.watchers@[i as int];
            assert(now.view().queue =~= watcher.view().queue.skip(1));
            assert(self@ =~= before.update(i as int, now.view()));
        }
        Some(event)
    }

    /// Stops a watcher: it is told no more, and what waits for it is dropped.
    pub fn unregister(&mut self, subscriber: &Subscriber)
        ensures
            0 <= subscriber@ < old(self)@.len() ==> final(self)@ == old(self)@.update(
                subscriber@,
                (WatcherView { queue: Seq::empty(), gone: true, ..old(self)@[subscriber@] }),
            ),
            !(0 <= subscriber@ < old(self)@.len()) ==> final(self)@ == old(self)@,
    {
        let i: usize = subscriber.id;
        if i >= self.watchers.len() {
            return;
        }
        let ghost before = self@;
        assert(before[i as int] == self.watchers@[i as int].view());
        self.watchers[i].queue = Vec::new();
        self.watchers[i].gone = true;
        proof {
            let now = self.watchers@[i as int];
            assert(now.view().queue =~= Seq::empty());
            assert(self@ =~= before.update(i as int, now.view()));
        }
    }
}

} // verus!
