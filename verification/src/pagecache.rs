//! The pages of the tree. A page is changed only by a caller that shows the
//! node which it expects there: who lost a race is told what is there instead.

use crate::key::{copy_bytes, is_same};
use crate::node::{applicable, follows, Frag, Node, NodeView, PageId};
use std::sync::Arc;
use vstd::prelude::*;

verus! {

/// The state of a page.
#[derive(Debug)]
pub enum Page {
    /// The page holds no node.
    Free,
    /// The page holds a node.
    Present(Arc<Node>),
}

/// What is found at a page.
#[derive(Debug)]
pub enum PageGet {
    /// The node that the page holds.
    Materialized(Arc<Node>),
    /// The page holds no node.
    Free,
    /// There is no such page.
    Unallocated,
}

/// Pages, and the root page of each tree by the tree's name.
///
/// Page 0 stands for the table of roots and never holds a node.
#[derive(Debug)]
pub struct PageCache {
    pages: Vec<Page>,
    free: Vec<PageId>,
    meta: Vec<(Vec<u8>, PageId)>,
}

impl View for PageCache {
    type V = Map<PageId, NodeView>;

    closed spec fn view(&self) -> Map<PageId, NodeView> {
        Map::new(
            |pid: PageId| pid < self.pages@.len() && self.pages@[pid as int] is Present,
            |pid: PageId| self.pages@[pid as int]->Present_0@,
        )
    }
}

/// The pages with numbers below `n`.
spec fn pages_below(n: nat) -> Set<PageId> {
    Set::new(|pid: PageId| pid < n)
}

proof fn lemma_pages_finite(n: nat)
    requires
        n <= u64::MAX,
    ensures
        pages_below(n).finite(),
    decreases n,
{
    broadcast use vstd::set::group_set_axioms;

    if n == 0 {
        assert(pages_below(0) =~= Set::empty());
    } else {
        lemma_pages_finite((n - 1) as nat);
        let last = (n - 1) as PageId;
        assert(pages_below(n) =~= pages_below((n - 1) as nat).insert(last));
    }
}

impl PageCache {
    /// The root page of each tree that has one.
    pub closed spec fn roots(&self) -> Map<Seq<u8>, PageId> {
        Map::new(
            |name: Seq<u8>|
                exists|i: int| #![trigger self.meta@[i]] 0 <= i < self.meta@.len() && self.meta@[i].0@ == name,
            |name: Seq<u8>|
                self.meta@[choose|i: int|
                    #![trigger self.meta@[i]]
                    0 <= i < self.meta@.len() && self.meta@[i].0@ == name].1,
        )
    }

    /// The number of pages there are, those that are free among them.
    pub closed spec fn allocated(&self) -> nat {
        self.pages@.len()
    }

    /// The free pages, in the order in which they have become free.
    pub closed spec fn free_pages(&self) -> Seq<PageId> {
        self.free@
    }

    /// Every node is well formed, what is listed as free is free, and no tree has two roots.
    pub closed spec fn wf(&self) -> bool {
        &&& self.pages@.len() > 0
        &&& self.pages@[0] is Free
        &&& forall|i: int|
            #![trigger self.pages@[i]]
            0 <= i < self.pages@.len() && self.pages@[i] is Present
                ==> self.pages@[i]->Present_0.wf()
        &&& forall|i: int|
            #![trigger self.free@[i]]
            0 <= i < self.free@.len() ==> 0 < self.free@[i] < self.pages@.len()
                && self.pages@[self.free@[i] as int] is Free
        &&& self.free@.no_duplicates()
        &&& forall|i: int, j: int|
            #![trigger self.meta@[i], self.meta@[j]]
            0 <= i < j < self.meta@.len() ==> self.meta@[i].0@ != self.meta@[j].0@
    }

    /// Every node is well formed, and page 0 holds none.
    pub proof fn lemma_wf(&self)
        requires
            self.wf(),
        ensures
            forall|pid: PageId| #![trigger self@[pid]] self@.contains_key(pid) ==> self@[pid].ok(),
            !self@.contains_key(0),
            !self@.contains_key(u64::MAX),
            self@.dom().finite(),
            self.allocated() > 0,
    {
        broadcast use vstd::set::group_set_axioms;

        assert(self.pages.len() == self.pages@.len());
        assert forall|pid: PageId| #![trigger self@[pid]] self@.contains_key(pid) implies self@[pid].ok() by {
            assert(self.pages@[pid as int] is Present);
        }
        lemma_pages_finite(self.pages@.len());
        assert(self@.dom().subset_of(pages_below(self.pages@.len())));
        vstd::set_lib::lemma_set_subset_finite(pages_below(self.pages@.len()), self@.dom());
    }

    /// A cache without nodes.
    pub fn new() -> (cache: PageCache)
        ensures
            cache.wf(),
            cache@ == Map::<PageId, NodeView>::empty(),
            cache.roots() == Map::<Seq<u8>, PageId>::empty(),
    {
        let mut pages: Vec<Page> = Vec::new();
        pages.push(Page::Free);
        let cache = PageCache { pages, free: Vec::new(), meta: Vec::new() };
        assert(cache@ =~= Map::<PageId, NodeView>::empty());
        assert(cache.roots() =~= Map::<Seq<u8>, PageId>::empty());
        cache
    }

    /// The number of pages there are, those that are free among them.
    pub fn page_count(&self) -> (n: usize)
        ensures
            n == self.allocated(),
    {
        self.pages.len()
    }

    /// The free pages, in the order in which they have become free.
    pub fn free_list(&self) -> (free: &Vec<PageId>)
        ensures
            free@ == self.free_pages(),
    {
        &self.free
    }

    /// Looks at a page.
    pub fn get(&self, pid: PageId) -> (r: PageGet)
        requires
            self.wf(),
        ensures
            match r {
                PageGet::Materialized(node) => self@.contains_key(pid) && node@ == self@[pid]
                    && node.wf(),
                PageGet::Free => !self@.contains_key(pid) && pid < self.allocated(),
                PageGet::Unallocated => !self@.contains_key(pid) && pid >= self.allocated(),
            },
    {
        if pid < self.pages.len() as u64 {
            match &self.pages[pid as usize] {
                Page::Free => PageGet::Free,
                Page::Present(node) => PageGet::Materialized(node.clone()),
            }
        } else {
            PageGet::Unallocated
        }
    }

    /// The node on a page that holds one.
    pub fn materialized(&self, pid: PageId) -> (node: Arc<Node>)
        requires
            self.wf(),
            self@.contains_key(pid),
        ensures
            node@ == self@[pid],
            node.wf(),
    {
        assert(self.pages.len() == self.pages@.len());
        match &self.pages[pid as usize] {
            Page::Free => Arc::new(Node::new_leaf()),
            Page::Present(node) => node.clone(),
        }
    }

    /// Puts a node on a page that held none.
    pub fn allocate(&mut self, node: Node) -> (r: (PageId, Arc<Node>))
        requires
            old(self).wf(),
            node.wf(),
        ensures
            final(self).wf(),
            !old(self)@.contains_key(r.0),
            r.0 != 0,
            r.0 != u64::MAX,
            *r.1 == node,
            final(self)@ == old(self)@.insert(r.0, node@),
            final(self).roots() == old(self).roots(),
    {
        let ghost before = *self;
        let shared = Arc::new(node);
        match self.free.pop() {
            Some(pid) => {
                assert(before.free@[before.free@.len() - 1] == pid);
                assert(self.pages.len() == self.pages@.len());
                self.pages.set(pid as usize, Page::Present(shared.clone()));
                proof {
                    assert forall|i: int| #![trigger self.free@[i]] 0 <= i < self.free@.len() implies 0
                        < self.free@[i] < self.pages@.len()
                        && self.pages@[self.free@[i] as int] is Free by {
                        assert(self.free@[i] == before.free@[i]);
                    }
                    assert(self@ =~= before@.insert(pid, node@));
                    assert(self.roots() =~= before.roots());
                }
                (pid, shared)
            },
            None => {
                let pid: PageId = self.pages.len() as u64;
                self.pages.push(Page::Present(shared.clone()));
                proof {
                    assert(self.pages.len() == self.pages@.len());
                    assert forall|i: int|
                        #![trigger self.pages@[i]]
                        0 <= i < self.pages@.len() && self.pages@[i] is Present implies self.pages@[i]->Present_0.wf() by {
                        if i < before.pages@.len() {
                            assert(self.pages@[i] == before.pages@[i]);
                        }
                    }
                    assert(self@ =~= before@.insert(pid, node@));
                    assert(self.roots() =~= before.roots());
                }
                (pid, shared)
            },
        }
    }

    /// Makes a change to the node on a page, if the node is `expected`.
    ///
    /// Tells the new node, or the node that is there instead; neither where the
    /// page holds no node.
    pub fn link<M: Fn(&[u8], Option<&[u8]>, &[u8]) -> Option<Vec<u8>>>(
        &mut self,
        pid: PageId,
        expected: &Node,
        frag: Frag,
        operator: &Option<M>,
    ) -> (r: Result<Arc<Node>, Option<Arc<Node>>>)
        requires
            old(self).wf(),
            expected.wf(),
            applicable(expected@, frag@, *operator),
        ensures
            final(self).wf(),
            final(self).roots() == old(self).roots(),
            match r {
                Ok(node) => {
                    &&& old(self)@.contains_key(pid)
                    &&& old(self)@[pid] == expected@
                    &&& node.wf()
                    &&& follows(expected@, frag@, *operator, node@)
                    &&& final(self)@ == old(self)@.insert(pid, node@)
                },
                Err(Some(node)) => {
                    &&& old(self)@.contains_key(pid)
                    &&& old(self)@[pid] != expected@
                    &&& node.wf()
                    &&& node@ == old(self)@[pid]
                    &&& final(self)@ == old(self)@
                },
                Err(None) => !old(self)@.contains_key(pid) && final(self)@ == old(self)@,
            },
    {
        match self.get(pid) {
            PageGet::Materialized(current) => {
                if !current.same(expected) {
                    return Err(Some(current));
                }
                let mut node = current.duplicate();
                node.apply(frag, operator);
                Ok(self.store(pid, node))
            },
            _ => Err(None),
        }
    }

    /// Replaces the node on a page, if the node is `expected`.
    ///
    /// Tells the new node, or the node that is there instead; neither where the
    /// page holds no node.
    pub fn replace(&mut self, pid: PageId, expected: &Node, node: Node) -> (r: Result<
        Arc<Node>,
        Option<Arc<Node>>,
    >)
        requires
            old(self).wf(),
            expected.wf(),
            node.wf(),
        ensures
            final(self).wf(),
            final(self).roots() == old(self).roots(),
            match r {
                Ok(new) => {
                    &&& old(self)@.contains_key(pid)
                    &&& old(self)@[pid] == expected@
                    &&& new.wf()
                    &&& new@ == node@
                    &&& final(self)@ == old(self)@.insert(pid, node@)
                },
                Err(Some(current)) => {
                    &&& old(self)@.contains_key(pid)
                    &&& old(self)@[pid] != expected@
                    &&& current.wf()
                    &&& current@ == old(self)@[pid]
                    &&& final(self)@ == old(self)@
                },
                Err(None) => !old(self)@.contains_key(pid) && final(self)@ == old(self)@,
            },
    {
        match self.get(pid) {
            PageGet::Materialized(current) => {
                if !current.same(expected) {
                    return Err(Some(current));
                }
                Ok(self.store(pid, node))
            },
            _ => Err(None),
        }
    }

    fn store(&mut self, pid: PageId, node: Node) -> (new: Arc<Node>)
        requires
            old(self).wf(),
            old(self)@.contains_key(pid),
            node.wf(),
        ensures
            final(self).wf(),
            final(self).roots() == old(self).roots(),
            new.wf(),
            new@ == node@,
            final(self)@ == old(self)@.insert(pid, node@),
    {
        let ghost before = *self;
        let new = Arc::new(node);
        assert(self.pages.len() == self.pages@.len());
        self.pages.set(pid as usize, Page::Present(new.clone()));
        proof {
            assert(self@ =~= before@.insert(pid, node@));
            assert(self.roots() =~= before.roots());
        }
        new
    }

    /// Takes the node off a page, if the node is `expected`.
    ///
    /// Tells what is there instead, if anything, where it is not.
    pub fn free(&mut self, pid: PageId, expected: &Node) -> (r: Result<(), Option<Arc<Node>>>)
        requires
            old(self).wf(),
            expected.wf(),
        ensures
            final(self).wf(),
            final(self).roots() == old(self).roots(),
            final(self).allocated() == old(self).allocated(),
            match r {
                Ok(()) => {
                    &&& old(self)@.contains_key(pid)
                    &&& old(self)@[pid] == expected@
                    &&& final(self)@ == old(self)@.remove(pid)
                },
                Err(Some(node)) => {
                    &&& old(self)@.contains_key(pid)
                    &&& old(self)@[pid] != expected@
                    &&& node.wf()
                    &&& node@ == old(self)@[pid]
                    &&& final(self)@ == old(self)@
                },
                Err(None) => !old(self)@.contains_key(pid) && final(self)@ == old(self)@,
            },
    {
        match self.get(pid) {
            PageGet::Materialized(current) => {
                if !current.same(expected) {
                    return Err(Some(current));
                }
                let ghost before = *self;
                assert(self.pages.len() == self.pages@.len());
                self.pages.set(pid as usize, Page::Free);
                self.free.push(pid);
                proof {
                    assert forall|i: int| #![trigger self.free@[i]] 0 <= i < self.free@.len() implies 0
                        < self.free@[i] < self.pages@.len()
                        && self.pages@[self.free@[i] as int] is Free by {
                        if i < before.free@.len() {
                            assert(self.free@[i] == before.free@[i]);
                        }
                    }
                    assert(self.free@.no_duplicates()) by {
                        assert forall|i: int, j: int|
                            0 <= i < self.free@.len() && 0 <= j < self.free@.len() && i
                                != j implies self.free@[i] != self.free@[j] by {
                            if i < before.free@.len() {
                                assert(self.free@[i] == before.free@[i]);
                            }
                            if j < before.free@.len() {
                                assert(self.free@[j] == before.free@[j]);
                            }
                        }
                    }
                    assert(self@ =~= before@.remove(pid));
                    assert(self.roots() =~= before.roots());
                }
                Ok(())
            },
            _ => Err(None),
        }
    }

    proof fn lemma_root(&self, i: int)
        requires
            self.wf(),
            0 <= i < self.meta@.len(),
        ensures
            self.roots().contains_key(self.meta@[i].0@),
            self.roots()[self.meta@[i].0@] == self.meta@[i].1,
    {
        let name = self.meta@[i].0@;
        let j = choose|j: int|
            #![trigger self.meta@[j]]
            0 <= j < self.meta@.len() && self.meta@[j].0@ == name;
        assert(0 <= j < self.meta@.len() && self.meta@[j].0@ == name);
        if i < j {
            assert(self.meta@[i].0@ != self.meta@[j].0@);
        } else if j < i {
            assert(self.meta@[j].0@ != self.meta@[i].0@);
        }
    }

    /// Finds the root of a tree in the table of roots.
    fn find_root(&self, name: &[u8]) -> (at: usize)
        requires
            self.wf(),
        ensures
            at <= self.meta@.len(),
            at < self.meta@.len() ==> self.meta@[at as int].0@ == name@,
            at == self.meta@.len() ==> !self.roots().contains_key(name@),
    {
        let mut at: usize = 0;
        while at < self.meta.len()
            invariant
                at <= self.meta@.len(),
                forall|i: int| #![trigger self.meta@[i]] 0 <= i < at ==> self.meta@[i].0@ != name@,
            decreases self.meta@.len() - at,
        {
            if is_same(self.meta[at].0.as_slice(), name) {
                return at;
            }
            at = at + 1;
        }
        at
    }

    /// The root of a tree.
    pub fn root_in_meta(&self, name: &[u8]) -> (root: Option<PageId>)
        requires
            self.wf(),
        ensures
            match root {
                Some(pid) => self.roots().contains_key(name@) && self.roots()[name@] == pid,
                None => !self.roots().contains_key(name@),
            },
    {
        let at = self.find_root(name);
        if at < self.meta.len() {
            proof {
                self.lemma_root(at as int);
            }
            Some(self.meta[at].1)
        } else {
            None
        }
    }

    /// Changes the root of a tree, if it is `expected`; tells what it is instead where it is not.
    pub fn cas_root_in_meta(
        &mut self,
        name: &[u8],
        expected: Option<PageId>,
        root: Option<PageId>,
    ) -> (r: Result<(), Option<PageId>>)
        requires
            old(self).wf(),
        ensures
            final(self).wf(),
            final(self)@ == old(self)@,
            ({
                let current = if old(self).roots().contains_key(name@) {
                    Some(old(self).roots()[name@])
                } else {
                    None
                };
                if current == expected {
                    &&& r is Ok
                    &&& final(self).roots() == match root {
                        Some(pid) => old(self).roots().insert(name@, pid),
                        None => old(self).roots().remove(name@),
                    }
                } else {
                    &&& r == Err::<(), Option<PageId>>(current)
                    &&& final(self).roots() == old(self).roots()
                }
            }),
    {
        let current = self.root_in_meta(name);
        if current != expected {
            return Err(current);
        }
        let ghost before = *self;
        let at = self.find_root(name);
        if at < self.meta.len() {
            proof {
                self.lemma_root(at as int);
            }
            match root {
                Some(pid) => {
                    self.meta.set(at, (copy_bytes(name), pid));
                },
                None => {
                    self.meta.remove(at);
                },
            }
        } else if let Some(pid) = root {
            self.meta.push((copy_bytes(name), pid));
        }
        proof {
            let removed = at < before.meta@.len() && root is None;
            assert forall|i: int, j: int|
                #![trigger self.meta@[i], self.meta@[j]]
                0 <= i < j < self.meta@.len() implies self.meta@[i].0@ != self.meta@[j].0@ by {
                let a = if removed && i >= at {
                    i + 1
                } else {
                    i
                };
                let b = if removed && j >= at {
                    j + 1
                } else {
                    j
                };
                assert(self.meta@[i].0@ == before.meta@[a].0@);
                if b < before.meta@.len() {
                    assert(self.meta@[j].0@ == before.meta@[b].0@);
                } else {
                    assert(self.meta@[j].0@ == name@);
                    before.lemma_root(a);
                }
            }
            assert(self.wf());
            let after = match root {
                Some(pid) => before.roots().insert(name@, pid),
                None => before.roots().remove(name@),
            };
            assert forall|n: Seq<u8>| #[trigger]
                self.roots().contains_key(n) implies after.contains_key(n) && after[n]
                == self.roots()[n] by {
                let i = choose|i: int|
                    #![trigger self.meta@[i]]
                    0 <= i < self.meta@.len() && self.meta@[i].0@ == n;
                assert(0 <= i < self.meta@.len() && self.meta@[i].0@ == n);
                self.lemma_root(i);
                let a = if removed && i >= at {
                    i + 1
                } else {
                    i
                };
                if n != name@ {
                    assert(a < before.meta@.len());
                    assert(self.meta@[i] == before.meta@[a]);
                    before.lemma_root(a);
                } else if removed {
                    assert(self.meta@[i] == before.meta@[a]);
                    if a < at {
                        assert(before.meta@[a].0@ != before.meta@[at as int].0@);
                    } else {
                        assert(before.meta@[at as int].0@ != before.meta@[a].0@);
                    }
                } else if i == at {
                } else {
                    assert(self.meta@[i] == before.meta@[a]);
                    before.lemma_root(a);
                }
            }
            assert forall|n: Seq<u8>| #[trigger]
                after.contains_key(n) implies self.roots().contains_key(n) by {
                if n == name@ {
                    assert(self.meta@[at as int].0@ == n);
                } else {
                    assert(before.roots().contains_key(n));
                    let a = choose|i: int|
                        #![trigger before.meta@[i]]
                        0 <= i < before.meta@.len() && before.meta@[i].0@ == n;
                    assert(0 <= a < before.meta@.len() && before.meta@[a].0@ == n);
                    let i = if removed && a > at {
                        a - 1
                    } else {
                        a
                    };
                    assert(self.meta@[i] == before.meta@[a]);
                }
            }
            assert(self.roots() =~= after);
            assert(self@ =~= before@);
        }
        Ok(())
    }
}

} // verus!
