//! Trees, written out for debugging.

use crate::clearing::cleared;
use crate::collect::leftmost;
use crate::help::{found_way, quiet, searched};
use crate::node::{Data, DataView, Node, NodeView, PageId};
use crate::pagecache::PageCache;
use crate::prefix::encoded;
use crate::shape::Shape;
use crate::traverse::{path_ok, step_ok};
use crate::tree::Tree;
use std::sync::Arc;
use vstd::prelude::*;
use vstd::string::StringExecFns;

verus! {

/// A digit.
pub open spec fn digit_text(d: nat) -> Seq<char> {
    if d == 0 {
        "0"@
    } else if d == 1 {
        "1"@
    } else if d == 2 {
        "2"@
    } else if d == 3 {
        "3"@
    } else if d == 4 {
        "4"@
    } else if d == 5 {
        "5"@
    } else if d == 6 {
        "6"@
    } else if d == 7 {
        "7"@
    } else if d == 8 {
        "8"@
    } else {
        "9"@
    }
}

/// A number, in decimal.
pub open spec fn number_text(n: nat) -> Seq<char>
    decreases n,
{
    if n < 10 {
        digit_text(n)
    } else {
        number_text(n / 10) + digit_text(n % 10)
    }
}

/// What goes before item `i` of a list.
pub open spec fn separator_text(i: int) -> Seq<char> {
    if i == 0 {
        Seq::empty()
    } else {
        ", "@
    }
}

/// The first `n` bytes of a list.
pub open spec fn first_bytes_text(bytes: Seq<u8>, n: nat) -> Seq<char>
    decreases n,
{
    if n == 0 {
        Seq::empty()
    } else {
        first_bytes_text(bytes, (n - 1) as nat) + separator_text(n - 1) + number_text(
            bytes[n - 1] as nat,
        )
    }
}

/// A list of bytes.
pub open spec fn bytes_text(bytes: Seq<u8>) -> Seq<char> {
    "["@ + first_bytes_text(bytes, bytes.len()) + "]"@
}

/// The first `n` pages of a list.
pub open spec fn first_pages_text(pages: Seq<PageId>, n: nat) -> Seq<char>
    decreases n,
{
    if n == 0 {
        Seq::empty()
    } else {
        first_pages_text(pages, (n - 1) as nat) + separator_text(n - 1) + number_text(
            pages[n - 1] as nat,
        )
    }
}

/// The first `n` entries of a leaf whose low key is `lo`.
pub open spec fn first_entries_text(
    lo: Seq<u8>,
    entries: Seq<(Seq<u8>, Seq<u8>)>,
    n: nat,
) -> Seq<char>
    decreases n,
{
    if n == 0 {
        Seq::empty()
    } else {
        let (key, value) = entries[n - 1];
        first_entries_text(lo, entries, (n - 1) as nat) + separator_text(n - 1) + "("@ + bytes_text(
            encoded(lo, key),
        ) + ", "@ + bytes_text(value) + ")"@
    }
}

/// The first `n` pointers of an index node whose low key is `lo`.
pub open spec fn first_pointers_text(
    lo: Seq<u8>,
    pointers: Seq<(Seq<u8>, PageId)>,
    n: nat,
) -> Seq<char>
    decreases n,
{
    if n == 0 {
        Seq::empty()
    } else {
        let (key, pid) = pointers[n - 1];
        first_pointers_text(lo, pointers, (n - 1) as nat) + separator_text(n - 1) + "("@
            + bytes_text(encoded(lo, key)) + ", "@ + number_text(pid as nat) + ")"@
    }
}

/// What a node holds, keys in their stored form.
pub open spec fn data_text(lo: Seq<u8>, data: DataView) -> Seq<char> {
    match data {
        DataView::Index(pointers) => "Index(["@ + first_pointers_text(lo, pointers, pointers.len())
            + "])"@,
        DataView::Leaf(entries) => "Leaf(["@ + first_entries_text(lo, entries, entries.len())
            + "])"@,
    }
}

/// A page that may be missing.
pub open spec fn page_text(page: Option<PageId>) -> Seq<char> {
    match page {
        Some(pid) => "Some("@ + number_text(pid as nat) + ")"@,
        None => "None"@,
    }
}

/// Whether something is so.
pub open spec fn bool_text(b: bool) -> Seq<char> {
    if b {
        "true"@
    } else {
        "false"@
    }
}

/// A node.
pub open spec fn node_text(node: NodeView) -> Seq<char> {
    "Node { data: "@ + data_text(node.lo, node.data) + ", next: "@ + page_text(node.next)
        + ", lo: "@ + bytes_text(node.lo) + ", hi: "@ + bytes_text(node.hi) + ", merging_child: "@
        + page_text(node.merging_child) + ", merging: "@ + bool_text(node.merging) + " }"@
}

/// The first `n` steps of a path.
pub open spec fn path_text(path: Seq<(PageId, Arc<Node>)>, n: nat) -> Seq<char>
    decreases n,
{
    if n == 0 {
        Seq::empty()
    } else {
        path_text(path, (n - 1) as nat) + "\n"@ + number_text(path[n - 1].0 as nat) + ": Base("@
            + node_text(path[n - 1].1@) + ")"@
    }
}

/// The first `n` nodes of level `l`.
pub open spec fn level_text(s: Shape, l: int, n: nat) -> Seq<char>
    decreases n,
{
    if n == 0 {
        Seq::empty()
    } else {
        level_text(s, l, (n - 1) as nat) + "\t\t"@ + node_text(s.node(l, n - 1)) + "\n"@
    }
}

/// What goes before the nodes of level `l`.
pub open spec fn heading_text(l: int) -> Seq<char> {
    if l == 0 {
        "\tlevel 0:\n"@
    } else {
        "\n\tlevel "@ + number_text(l as nat) + ":\n"@
    }
}

/// The first `n` levels.
pub open spec fn levels_text(s: Shape, n: nat) -> Seq<char>
    decreases n,
{
    if n == 0 {
        Seq::empty()
    } else {
        levels_text(s, (n - 1) as nat) + heading_text(n - 1) + level_text(
            s,
            n - 1,
            s.levels[n - 1].len(),
        )
    }
}

/// The pages of a tree: how many there are, and which of them are free.
pub open spec fn cache_text(count: nat, free: Seq<PageId>) -> Seq<char> {
    "PageCache { max: "@ + number_text(count) + " free: ["@ + first_pages_text(free, free.len())
        + "] }\n"@
}

fn push_digit(out: &mut String, d: u64)
    requires
        d < 10,
    ensures
        final(out)@ == old(out)@ + digit_text(d as nat),
{
    let digit = if d == 0 {
        "0"
    } else if d == 1 {
        "1"
    } else if d == 2 {
        "2"
    } else if d == 3 {
        "3"
    } else if d == 4 {
        "4"
    } else if d == 5 {
        "5"
    } else if d == 6 {
        "6"
    } else if d == 7 {
        "7"
    } else if d == 8 {
        "8"
    } else {
        "9"
    };
    out.append(digit);
}

fn push_number(out: &mut String, n: u64)
    ensures
        final(out)@ == old(out)@ + number_text(n as nat),
    decreases n,
{
    let ghost before = out@;
    if n >= 10 {
        push_number(out, n / 10);
    }
    push_digit(out, n % 10);
    proof {
        assert(out@ =~= before + number_text(n as nat));
    }
}

fn push_separator(out: &mut String, i: usize)
    ensures
        final(out)@ == old(out)@ + separator_text(i as int),
{
    if i > 0 {
        out.append(", ");
    } else {
        proof {
            assert(out@ =~= out@ + separator_text(0));
        }
    }
}

fn push_bytes(out: &mut String, bytes: &[u8])
    ensures
        final(out)@ == old(out)@ + bytes_text(bytes@),
{
    let ghost before = out@;
    out.append("[");
    let mut i: usize = 0;
    while i < bytes.len()
        invariant
            i <= bytes@.len(),
            out@ =~= before + "["@ + first_bytes_text(bytes@, i as nat),
        decreases bytes@.len() - i,
    {
        push_separator(out, i);
        push_number(out, bytes[i] as u64);
        i = i + 1;
    }
    out.append("]");
    proof {
        assert(out@ =~= before + bytes_text(bytes@));
    }
}

fn push_pages(out: &mut String, pages: &Vec<PageId>)
    ensures
        final(out)@ == old(out)@ + first_pages_text(pages@, pages@.len()),
{
    let ghost before = out@;
    let mut i: usize = 0;
    while i < pages.len()
        invariant
            i <= pages@.len(),
            out@ =~= before + first_pages_text(pages@, i as nat),
        decreases pages@.len() - i,
    {
        push_separator(out, i);
        push_number(out, pages[i]);
        i = i + 1;
    }
}

fn push_page(out: &mut String, page: Option<PageId>)
    ensures
        final(out)@ == old(out)@ + page_text(page),
{
    let ghost before = out@;
    match page {
        Some(pid) => {
            out.append("Some(");
            push_number(out, pid);
            out.append(")");
        },
        None => {
            out.append("None");
        },
    }
    proof {
        assert(out@ =~= before + page_text(page));
    }
}

fn push_data(out: &mut String, node: &Node)
    requires
        node.wf(),
    ensures
        final(out)@ == old(out)@ + data_text(node@.lo, node@.data),
{
    let ghost before = out@;
    match &node.data {
        Data::Index(items) => {
            out.append("Index([");
            let mut i: usize = 0;
            while i < items.len()
                invariant
                    i <= items@.len(),
                    node.data == Data::Index(*items),
                    node.wf(),
                    out@ =~= before + "Index(["@ + first_pointers_text(
                        node@.lo,
                        node@.pointers(),
                        i as nat,
                    ),
                decreases items@.len() - i,
            {
                proof {
                    assert(items@[i as int].0@ == encoded(
                        node@.lo,
                        node@.pointers()[i as int].0,
                    ));
                }
                push_separator(out, i);
                out.append("(");
                push_bytes(out, items[i].0.as_slice());
                out.append(", ");
                push_number(out, items[i].1);
                out.append(")");
                i = i + 1;
            }
        },
        Data::Leaf(items) => {
            out.append("Leaf([");
            let mut i: usize = 0;
            while i < items.len()
                invariant
                    i <= items@.len(),
                    node.data == Data::Leaf(*items),
                    node.wf(),
                    out@ =~= before + "Leaf(["@ + first_entries_text(
                        node@.lo,
                        node@.entries(),
                        i as nat,
                    ),
                decreases items@.len() - i,
            {
                proof {
                    assert(items@[i as int].0@ == encoded(
                        node@.lo,
                        node@.entries()[i as int].0,
                    ));
                }
                push_separator(out, i);
                out.append("(");
                push_bytes(out, items[i].0.as_slice());
                out.append(", ");
                push_bytes(out, items[i].1.as_slice());
                out.append(")");
                i = i + 1;
            }
        },
    }
    out.append("])");
    proof {
        assert(out@ =~= before + data_text(node@.lo, node@.data));
    }
}

/// Texts may be put together from either end.
proof fn lemma_appended(before: Seq<char>, text: Seq<char>, more: Seq<char>)
    ensures
        before + text + more == before + (text + more),
{
    assert(before + text + more =~= before + (text + more));
}

/// Writes a node out.
pub fn push_node(out: &mut String, node: &Node)
    requires
        node.wf(),
    ensures
        final(out)@ == old(out)@ + node_text(node@),
{
    let ghost before = out@;
    let ghost n = node@;
    out.append("Node { data: ");
    let ghost text = "Node { data: "@;
    push_data(out, node);
    proof {
        lemma_appended(before, text, data_text(n.lo, n.data));
    }
    let ghost text = text + data_text(n.lo, n.data);
    out.append(", next: ");
    proof {
        lemma_appended(before, text, ", next: "@);
    }
    let ghost text = text + ", next: "@;
    push_page(out, node.next);
    proof {
        lemma_appended(before, text, page_text(n.next));
    }
    let ghost text = text + page_text(n.next);
    out.append(", lo: ");
    proof {
        lemma_appended(before, text, ", lo: "@);
    }
    let ghost text = text + ", lo: "@;
    push_bytes(out, node.lo.as_slice());
    proof {
        lemma_appended(before, text, bytes_text(n.lo));
    }
    let ghost text = text + bytes_text(n.lo);
    out.append(", hi: ");
    proof {
        lemma_appended(before, text, ", hi: "@);
    }
    let ghost text = text + ", hi: "@;
    push_bytes(out, node.hi.as_slice());
    proof {
        lemma_appended(before, text, bytes_text(n.hi));
    }
    let ghost text = text + bytes_text(n.hi);
    out.append(", merging_child: ");
    proof {
        lemma_appended(before, text, ", merging_child: "@);
    }
    let ghost text = text + ", merging_child: "@;
    push_page(out, node.merging_child);
    proof {
        lemma_appended(before, text, page_text(n.merging_child));
    }
    let ghost text = text + page_text(n.merging_child);
    out.append(", merging: ");
    proof {
        lemma_appended(before, text, ", merging: "@);
    }
    let ghost text = text + ", merging: "@;
    if node.merging {
        out.append("true");
    } else {
        out.append("false");
    }
    proof {
        lemma_appended(before, text, bool_text(n.merging));
    }
    let ghost text = text + bool_text(n.merging);
    out.append(" }");
    proof {
        lemma_appended(before, text, " }"@);
    }
}

impl<M: Fn(&[u8], Option<&[u8]>, &[u8]) -> Option<Vec<u8>>> Tree<M> {
    /// The path to a key, written out.
    pub fn key_debug_str(&mut self, key: &[u8]) -> (text: String)
        requires
            old(self).wf(),
            !old(self).is_removed(),
        ensures
            final(self).wf(),
            final(self).only_tidied(old(self)),
            searched(old(self).shape(), final(self).shape(), key@),
            cleared(old(self).shape(), final(self).shape(), key@),
            exists|path: Seq<(PageId, Arc<Node>)>|
                {
                    &&& #[trigger] path_ok(final(self).shape(), path, key@)
                    &&& quiet(old(self).shape(), key@) ==> found_way(
                        old(self).shape(),
                        final(self).shape(),
                        path,
                        key@,
                    )
                    &&& text@ == path_text(path, path.len())
                },
    {
        let mut ret = String::new();
        let path = match self.path_for_key(key) {
            Ok(path) => path,
            Err(_) => return ret,
        };
        let ghost s = self.shape();
        let mut i: usize = 0;
        proof {
            assert(ret@ =~= Seq::<char>::empty());
        }
        while i < path.len()
            invariant
                i <= path@.len(),
                path_ok(s, path@, key@),
                ret@ =~= path_text(path@, i as nat),
            decreases path@.len() - i,
        {
            proof {
                assert(step_ok(s, path@, key@, i as int));
            }
            ret.append("\n");
            push_number(&mut ret, path[i].0);
            ret.append(": Base(");
            push_node(&mut ret, &path[i].1);
            ret.append(")");
            i = i + 1;
        }
        ret
    }
}

/// A tree: its pages, and its nodes level by level.
pub open spec fn tree_text(s: Shape, count: nat, free: Seq<PageId>) -> Seq<char> {
    "Tree: \n\t"@ + cache_text(count, free) + levels_text(s, s.levels.len())
}

fn push_cache(out: &mut String, cache: &PageCache)
    ensures
        final(out)@ == old(out)@ + cache_text(cache.allocated(), cache.free_pages()),
{
    let ghost before = out@;
    out.append("PageCache { max: ");
    push_number(out, cache.page_count() as u64);
    out.append(" free: [");
    push_pages(out, cache.free_list());
    out.append("] }\n");
    proof {
        assert(out@ =~= before + cache_text(cache.allocated(), cache.free_pages()));
    }
}

/// A level that has been written out is one more level.
proof fn lemma_level_written(head: Seq<char>, s: Shape, l: int)
    requires
        0 <= l < s.levels.len(),
    ensures
        head + levels_text(s, l as nat) + heading_text(l) + level_text(s, l, s.levels[l].len())
            == head + levels_text(s, (l + 1) as nat),
{
    let rest = heading_text(l) + level_text(s, l, s.levels[l].len());
    assert(levels_text(s, (l + 1) as nat) =~= levels_text(s, l as nat) + rest);
    assert(head + levels_text(s, l as nat) + heading_text(l) + level_text(
        s,
        l,
        s.levels[l].len(),
    ) =~= head + (levels_text(s, l as nat) + rest));
}

/// A node that has been written out is one more node.
proof fn lemma_node_written(head: Seq<char>, s: Shape, l: int, i: int)
    requires
        0 <= i,
    ensures
        head + level_text(s, l, i as nat) + "\t\t"@ + node_text(s.node(l, i)) + "\n"@ == head
            + level_text(s, l, (i + 1) as nat),
{
    assert(head + level_text(s, l, i as nat) + "\t\t"@ + node_text(s.node(l, i)) + "\n"@ =~= head + (
    level_text(s, l, i as nat) + "\t\t"@ + node_text(s.node(l, i)) + "\n"@));
}

impl<M> Tree<M> {
    /// The free pages of the tree.
    pub open(crate) spec fn free_pages(&self) -> Seq<PageId> {
        self.pagecache.free_pages()
    }

    /// The tree, written out.
    pub fn debug_str(&self) -> (text: String)
        requires
            self.wf(),
            !self.is_removed(),
        ensures
            text@ == tree_text(self.shape(), self.allocated(), self.free_pages()),
    {
        let ghost s = self.shape();
        let mut out = String::new();
        out.append("Tree: \n\t");
        push_cache(&mut out, &self.pagecache);
        let ghost head = "Tree: \n\t"@ + cache_text(self.allocated(), self.free_pages());
        let left_most = self.leftmost_chain();
        let mut level: usize = 0;
        proof {
            assert(out@ =~= head + levels_text(s, 0));
        }
        while level < left_most.len()
            invariant
                self.wf(),
                !self.is_removed(),
                s == self.shape(),
                left_most@ == leftmost(s),
                level <= left_most@.len(),
                out@ == head + levels_text(s, level as nat),
            decreases left_most@.len() - level,
        {
            let ghost l = level as int;
            let ghost mut i: int = 0;
            if level == 0 {
                out.append("\tlevel 0:\n");
            } else {
                out.append("\n\tlevel ");
                push_number(&mut out, level as u64);
                out.append(":\n");
            }
            let ghost before = head + levels_text(s, level as nat) + heading_text(l);
            let mut pid: PageId = left_most[level];
            let mut more: bool = true;
            proof {
                assert(s.levels[l].len() > 0);
                assert(out@ =~= before + level_text(s, l, 0));
            }
            while more
                invariant
                    self.wf(),
                    !self.is_removed(),
                    s == self.shape(),
                    0 <= l < s.levels.len(),
                    more ==> s.place(l, i) && pid == s.page(l, i),
                    !more ==> i == s.levels[l].len(),
                    0 <= i,
                    out@ == before + level_text(s, l, i as nat),
                decreases
                        (if more {
                            1 + s.levels[l].len() - i
                        } else {
                            0
                        }),
            {
                proof {
                    assert(s.place_ok(l, i));
                    lemma_node_written(before, s, l, i);
                }
                let node = self.pagecache.materialized(pid);
                out.append("\t\t");
                push_node(&mut out, &node);
                out.append("\n");
                match node.next {
                    Some(next) => {
                        pid = next;
                    },
                    None => {
                        more = false;
                    },
                }
                proof {
                    i = i + 1;
                }
            }
            proof {
                lemma_level_written(head, s, l);
            }
            level = level + 1;
        }
        out
    }
}

} // verus!
