//! The tree: its parts, what they promise each other, and how it comes to be.

use crate::journal::{complete, recovered};
use crate::key::{copy_bytes, lemma_empty_key_is_least};
use crate::node::{Data, DataView, Node, NodeView, PageId};
use crate::pagecache::PageCache;
use crate::prefix::prefix_encode;
use crate::shape::{lemma_home, Shape};
use crate::subscription::{buffers_ok, Subscriptions, WatcherView};
use vstd::prelude::*;

verus! {

/// The largest split size for which the sizes of nodes near the root can be written down.
pub const MAX_SPLIT_SIZE: u64 = 0x00ff_ffff_ffff_ffff;

/// How a tree is set up.
pub struct Config<M> {
    /// Whether writes are refused.
    pub read_only: bool,
    /// Combines a value with what is there, for `merge`. It is given the key, the
    /// value that is there, if any, and the value to merge in, and answers the new
    /// value, or none to take the key out.
    pub merge_operator: Option<M>,
    /// The number of bytes from which on a leaf is split.
    pub blink_node_split_size: usize,
}

/// An ordered map from keys to values, kept in a B-link tree.
///
/// A tree is looked at through exclusive references, since a search completes
/// the splits and merges that it comes across.
pub struct Tree<M> {
    pub(crate) tree_id: Vec<u8>,
    pub(crate) config: Config<M>,
    pub(crate) pagecache: PageCache,
    pub(crate) subscriptions: Subscriptions,
    pub(crate) root: PageId,
    pub(crate) dirty: Vec<u8>,
    pub(crate) flushed: Ghost<Seq<u8>>,
    pub(crate) levels: Ghost<Seq<Seq<PageId>>>,
}

impl<M> View for Tree<M> {
    type V = Map<Seq<u8>, Seq<u8>>;

    /// The map that the tree stands for.
    open(crate) spec fn view(&self) -> Map<Seq<u8>, Seq<u8>> {
        if self.is_removed() {
            Map::empty()
        } else {
            self.shape().contents()
        }
    }
}

impl<M> Tree<M> {
    /// The shape of the tree.
    pub open(crate) spec fn shape(&self) -> Shape {
        Shape { nodes: self.pagecache@, levels: self.levels@ }
    }

    /// Whether the tree has been removed.
    pub open(crate) spec fn is_removed(&self) -> bool {
        self.root == u64::MAX
    }

    /// The page of the root.
    pub open(crate) spec fn root_page(&self) -> PageId {
        self.root
    }

    /// The name of the tree.
    pub open(crate) spec fn spec_name(&self) -> Seq<u8> {
        self.tree_id@
    }

    /// How the tree is set up.
    pub open(crate) spec fn setup(&self) -> Config<M> {
        self.config
    }

    /// Who watches the tree.
    pub open(crate) spec fn watchers(&self) -> Seq<WatcherView> {
        self.subscriptions@
    }

    /// The part of the journal that has been handed over by `flush`.
    pub open(crate) spec fn flushed_journal(&self) -> Seq<u8> {
        self.flushed@
    }

    /// The journal of all writes.
    pub open(crate) spec fn journal(&self) -> Seq<u8> {
        self.flushed@ + self.dirty@
    }

    /// The tree is well formed: its pages have the shape of a tree below its root, its
    /// journal recovers its contents, and no more events wait than there is room for.
    pub open(crate) spec fn wf(&self) -> bool {
        &&& self.pagecache.wf()
        &&& self.config.blink_node_split_size <= MAX_SPLIT_SIZE
        &&& buffers_ok(self.subscriptions@)
        &&& !self.is_removed() ==> {
            &&& self.shape().wf()
            &&& self.shape().levels.len() >= 2
            &&& self.shape().page(0, 0) == self.root
            &&& self.pagecache.roots().contains_key(self.tree_id@)
            &&& self.pagecache.roots()[self.tree_id@] == self.root
            &&& complete(self.journal(), 0)
            &&& recovered(self.journal()) == self.shape().contents()
        }
    }

    /// Nothing has changed but the pages in which the contents are kept.
    pub open(crate) spec fn only_pages_changed(&self, before: &Tree<M>) -> bool {
        &&& self.tree_id@ == before.tree_id@
        &&& self.config == before.config
        &&& self.subscriptions@ == before.subscriptions@
        &&& self.dirty@ == before.dirty@
        &&& self.flushed@ == before.flushed@
        &&& self.is_removed() == before.is_removed()
        &&& self@ == before@
    }
}

/// The root above a single page.
pub open spec fn first_root(leaf: PageId) -> NodeView {
    NodeView {
        data: DataView::Index(seq![(Seq::<u8>::empty(), leaf)]),
        next: None,
        lo: Seq::empty(),
        hi: Seq::empty(),
        merging_child: None,
        merging: false,
    }
}

/// An empty leaf for all keys.
pub open spec fn first_leaf() -> NodeView {
    NodeView {
        data: DataView::Leaf(Seq::empty()),
        next: None,
        lo: Seq::empty(),
        hi: Seq::empty(),
        merging_child: None,
        merging: false,
    }
}

/// A root above an empty leaf is an empty tree.
proof fn lemma_first_shape(root: PageId, leaf: PageId)
    requires
        root != leaf,
    ensures
        ({
            let s = Shape {
                nodes: Map::<PageId, NodeView>::empty().insert(leaf, first_leaf()).insert(
                    root,
                    first_root(leaf),
                ),
                levels: seq![seq![root], seq![leaf]],
            };
            &&& s.wf()
            &&& s.contents() == Map::<Seq<u8>, Seq<u8>>::empty()
        }),
{
    let s = Shape {
        nodes: Map::<PageId, NodeView>::empty().insert(leaf, first_leaf()).insert(
            root,
            first_root(leaf),
        ),
        levels: seq![seq![root], seq![leaf]],
    };
    lemma_empty_key_is_least(Seq::empty());
    assert(s.levels[0] == seq![root] && s.levels[1] == seq![leaf]);
    assert(s.page(0, 0) == root && s.page(1, 0) == leaf);
    assert(first_root(leaf).ok());
    assert forall|l: int, i: int| s.place(l, i) implies #[trigger] s.place_ok(l, i) by {
        assert(i == 0);
    }
    assert forall|l: int, i: int, j: int|
        s.place(l, i) && l != s.bottom() && 0 <= j < s.node(l, i).pointers().len() implies #[trigger] s.pointer_ok(
        l,
        i,
        j,
    ) by {
        assert(l == 0 && i == 0 && j == 0);
        assert(s.starts_at(1, 0, leaf, Seq::empty()));
        assert(s.leads_to(l + 1, leaf, Seq::empty()));
    }
    assert forall|p: PageId| #[trigger] s.nodes.contains_key(p) implies s.placed(p) by {
        if p == root {
            assert(s.page(0, 0) == p);
        } else {
            assert(s.page(1, 0) == p);
        }
    }
    assert(s.wf());
    assert forall|key: Seq<u8>| !s.contents().contains_key(key) by {
        lemma_home(s, 1, key);
    }
    assert(s.contents() =~= Map::<Seq<u8>, Seq<u8>>::empty());
}

impl<M> Tree<M> {
    /// An empty tree.
    pub fn new(name: Vec<u8>, config: Config<M>) -> (tree: Tree<M>)
        requires
            config.blink_node_split_size <= MAX_SPLIT_SIZE,
        ensures
            tree.wf(),
            !tree.is_removed(),
            tree@ == Map::<Seq<u8>, Seq<u8>>::empty(),
            tree.spec_name() == name@,
            tree.setup() == config,
            tree.watchers() == Seq::<WatcherView>::empty(),
            tree.journal() == Seq::<u8>::empty(),
            tree.flushed_journal() == Seq::<u8>::empty(),
    {
        let mut pagecache = PageCache::new();
        let (leaf, _) = pagecache.allocate(Node::new_leaf());
        let mut pointers: Vec<(Vec<u8>, PageId)> = Vec::new();
        let empty: Vec<u8> = Vec::new();
        let stored = prefix_encode(empty.as_slice(), empty.as_slice());
        pointers.push((stored, leaf));
        let top = Node {
            data: Data::Index(pointers),
            next: None,
            lo: Vec::new(),
            hi: Vec::new(),
            merging_child: None,
            merging: false,
        };
        proof {
            lemma_empty_key_is_least(Seq::empty());
            assert(top@.lo =~= Seq::empty());
            assert(top@.hi =~= Seq::empty());
            assert(empty@ =~= Seq::empty());
            assert(top@.pointers() =~= first_root(leaf).pointers());
            assert(top@ == first_root(leaf));
            assert(top.wf());
        }
        let (root, _) = pagecache.allocate(top);
        let _ = pagecache.cas_root_in_meta(name.as_slice(), None, Some(root));
        let ghost levels = seq![seq![root], seq![leaf]];
        let tree = Tree {
            tree_id: name,
            config,
            pagecache,
            subscriptions: Subscriptions::new(),
            root,
            dirty: Vec::new(),
            flushed: Ghost(Seq::empty()),
            levels: Ghost(levels),
        };
        proof {
            lemma_first_shape(root, leaf);
            assert(tree.journal() =~= Seq::<u8>::empty());
        }
        tree
    }

    /// Tells whether the tree has been removed.
    pub fn has_been_removed(&self) -> (r: bool)
        ensures
            r == self.is_removed(),
    {
        self.root == u64::MAX
    }

    /// The name of the tree.
    pub fn name(&self) -> (name: Vec<u8>)
        ensures
            name@ == self.spec_name(),
    {
        copy_bytes(self.tree_id.as_slice())
    }
}

} // verus!
