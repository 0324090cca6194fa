//! Watching a tree, and making its contents outlive a crash.

use crate::error::Error;
use crate::journal::{
    complete, lemma_append_record, lemma_read, read_record, record_at, recovered, replayed,
};
use crate::node::bytes_view;
use crate::subscription::{room_for, Event, Subscriber, WatcherView};
use crate::tree::{Config, Tree, MAX_SPLIT_SIZE};
use crate::write::map_put;
use vstd::prelude::*;

verus! {

impl<M> Tree<M> {
    /// Nothing has changed but who watches the tree, and what waits for them.
    pub open(crate) spec fn only_watchers_changed(&self, before: &Tree<M>) -> bool {
        &&& self.spec_name() == before.spec_name()
        &&& self.setup() == before.setup()
        &&& self.shape() == before.shape()
        &&& self.root == before.root
        &&& self@ == before@
        &&& self.is_removed() == before.is_removed()
        &&& self.journal() == before.journal()
        &&& self.flushed_journal() == before.flushed_journal()
    }

    /// Watches for events on keys that start with `prefix`.
    pub fn watch_prefix(&mut self, prefix: Vec<u8>) -> (subscriber: Subscriber)
        requires
            old(self).wf(),
        ensures
            final(self).wf(),
            final(self).only_watchers_changed(old(self)),
            subscriber@ == old(self).watchers().len(),
            final(self).watchers() == old(self).watchers().push(
                (WatcherView { prefix: prefix@, queue: Seq::empty(), gone: false }),
            ),
    {
        self.subscriptions.register(prefix)
    }

    /// Takes the oldest event that waits for a subscriber.
    pub fn next_event(&mut self, subscriber: &Subscriber) -> (event: Option<Event>)
        requires
            old(self).wf(),
        ensures
            final(self).wf(),
            final(self).only_watchers_changed(old(self)),
            0 <= subscriber@ < old(self).watchers().len() && old(
                self,
            ).watchers()[subscriber@].queue.len() > 0 ==> {
                let watcher = old(self).watchers()[subscriber@];
                &&& event matches Some(e)
                &&& e@ == watcher.queue[0]
                &&& final(self).watchers() == old(self).watchers().update(
                    subscriber@,
                    (WatcherView { queue: watcher.queue.skip(1), ..watcher }),
                )
            },
            !(0 <= subscriber@ < old(self).watchers().len() && old(
                self,
            ).watchers()[subscriber@].queue.len() > 0) ==> event is None && final(self).watchers()
                == old(self).watchers(),
    {
        self.subscriptions.next(subscriber)
    }

    /// Stops a subscriber: it is told no more, and what waits for it is dropped.
    pub fn unwatch(&mut self, subscriber: &Subscriber)
        requires
            old(self).wf(),
        ensures
            final(self).wf(),
            final(self).only_watchers_changed(old(self)),
            0 <= subscriber@ < old(self).watchers().len() ==> final(self).watchers() == old(
                self,
            ).watchers().update(
                subscriber@,
                (WatcherView {
                    queue: Seq::empty(),
                    gone: true,
                    ..old(self).watchers()[subscriber@]
                }),
            ),
            !(0 <= subscriber@ < old(self).watchers().len()) ==> final(self).watchers() == old(
                self,
            ).watchers(),
    {
        self.subscriptions.unregister(subscriber);
    }

    /// Tells whether all who watch `key` have room for one more event. Where they do
    /// not, a write to the key should wait.
    pub fn has_room(&self, key: &[u8]) -> (r: bool)
        ensures
            r == room_for(self.watchers(), key@),
    {
        self.subscriptions.has_room(key)
    }

    /// What has to be put after the part of the journal that has been flushed.
    pub fn dirty_bytes(&self) -> (bytes: &[u8])
        ensures
            self.flushed_journal() + bytes@ == self.journal(),
    {
        self.dirty.as_slice()
    }

    /// Takes note of what became of the dirty bytes: `stored` tells whether they have
    /// reached stable storage. If so, tells how many they were.
    pub fn flush(&mut self, stored: Result<(), Error>) -> (r: Result<usize, Error>)
        requires
            old(self).wf(),
        ensures
            final(self).wf(),
            match stored {
                Ok(()) => {
                    &&& r matches Ok(n)
                    &&& n == old(self).journal().len() - old(self).flushed_journal().len()
                    &&& final(self).flushed_journal() == old(self).journal()
                    &&& final(self).journal() == old(self).journal()
                    &&& final(self).spec_name() == old(self).spec_name()
                    &&& final(self).setup() == old(self).setup()
                    &&& final(self).shape() == old(self).shape()
                    &&& final(self).watchers() == old(self).watchers()
                    &&& final(self).is_removed() == old(self).is_removed()
                    &&& final(self)@ == old(self)@
                    &&& !old(self).is_removed() ==> recovered(final(self).flushed_journal())
                        == old(self)@
                },
                Err(e) => r == Err::<usize, Error>(e) && *final(self) == *old(self),
            },
    {
        match stored {
            Ok(()) => {
                let n: usize = self.dirty.len();
                let ghost journal = self.journal();
                self.flushed = Ghost(journal);
                self.dirty = Vec::new();
                proof {
                    assert(self.journal() =~= journal);
                }
                Ok(n)
            },
            Err(e) => Err(e),
        }
    }
}

impl<M: Fn(&[u8], Option<&[u8]>, &[u8]) -> Option<Vec<u8>>> Tree<M> {
    /// The tree whose journal is `journal`, as far as that holds whole writes. Tells
    /// where the last of them ends.
    pub fn recover(name: Vec<u8>, config: Config<M>, journal: &[u8]) -> (r: (Tree<M>, usize))
        requires
            config.blink_node_split_size <= MAX_SPLIT_SIZE,
        ensures
            r.0.wf(),
            !r.0.is_removed(),
            r.0@ == recovered(journal@),
            r.0.spec_name() == name@,
            r.0.setup() == config,
            r.0.watchers() == Seq::<WatcherView>::empty(),
            r.1 <= journal@.len(),
            record_at(journal@, r.1 as int) is None,
            complete(journal@.take(r.1 as int), 0),
            r.0.flushed_journal() == journal@.take(r.1 as int),
            r.0.journal() == r.0.flushed_journal(),
    {
        let mut tree = Tree::new(name, config);
        let mut end: usize = 0;
        let mut more: bool = true;
        proof {
            assert(journal@.take(0) =~= Seq::empty());
        }
        while more
            invariant
                tree.wf(),
                !tree.is_removed(),
                tree.spec_name() == name@,
                tree.setup() == config,
                tree.watchers() == Seq::<WatcherView>::empty(),
                end <= journal@.len(),
                complete(journal@.take(end as int), 0),
                recovered(journal@.take(end as int)) == tree@,
                recovered(journal@) == replayed(journal@, end as int, tree@),
                !more ==> record_at(journal@, end as int) is None,
            decreases
                    (if more {
                        1 + journal@.len() - end
                    } else {
                        0
                    }),
        {
            match read_record(journal, end) {
                Some((record, next)) => {
                    proof {
                        lemma_read(journal@, end as int);
                        lemma_append_record(
                            journal@.take(end as int),
                            0,
                            Map::empty(),
                            record@,
                        );
                    }
                    tree.replay(record.key.as_slice(), record.value);
                    end = next;
                },
                None => {
                    more = false;
                },
            }
        }
        let ghost whole = journal@.take(end as int);
        tree.dirty = Vec::new();
        tree.flushed = Ghost(whole);
        proof {
            assert(tree.journal() =~= whole);
        }
        (tree, end)
    }

    /// Makes a write once more.
    fn replay(&mut self, key: &[u8], value: Option<Vec<u8>>)
        requires
            old(self).wf(),
            !old(self).is_removed(),
            old(self).watchers() == Seq::<WatcherView>::empty(),
        ensures
            final(self).wf(),
            final(self).spec_name() == old(self).spec_name(),
            final(self).setup() == old(self).setup(),
            final(self).is_removed() == old(self).is_removed(),
            final(self)@ == map_put(old(self)@, key@, bytes_view(value)),
            final(self).watchers() == Seq::<WatcherView>::empty(),
    {
        let found = match self.get_internal(key) {
            Ok(found) => found,
            Err(_) => return,
        };
        let _ = match value {
            Some(bytes) => self.try_set(key, bytes, found),
            None => self.try_write(key, None, found),
        };
        proof {
            assert(self.watchers() =~= Seq::<WatcherView>::empty());
        }
    }
}

} // verus!
