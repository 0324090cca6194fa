//! How nodes, paths and trees are written out: numbers so that they can be read back,
//! lists item by item, and each part of a node under its name.

use crate::node::{DataView, Node, NodeView, PageId};
use crate::prefix::encoded;
use crate::shape::Shape;
use crate::text::{
    bytes_text, digit_text, first_bytes_text, first_entries_text, first_pages_text,
    first_pointers_text, level_text, levels_text, node_text, number_text, path_text, tree_text,
};
use std::sync::Arc;
use vstd::prelude::*;

verus! {

/// The number that decimal digits stand for.
pub open spec fn read_number(text: Seq<char>) -> int
    decreases text.len(),
{
    if text.len() == 0 {
        0
    } else {
        10 * read_number(text.drop_last()) + (text.last() as int - '0' as int)
    }
}

proof fn lemma_digit(d: nat)
    requires
        d < 10,
    ensures
        digit_text(d).len() == 1,
        digit_text(d)[0] as int == '0' as int + d,
{
    reveal_strlit("0");
    reveal_strlit("1");
    reveal_strlit("2");
    reveal_strlit("3");
    reveal_strlit("4");
    reveal_strlit("5");
    reveal_strlit("6");
    reveal_strlit("7");
    reveal_strlit("8");
    reveal_strlit("9");
}

/// A number is written in decimal digits, without leading zeros, and is read back
/// from them.
pub proof fn law_number_is_read_back(n: nat)
    ensures
        number_text(n).len() > 0,
        forall|i: int|
            #![trigger number_text(n)[i]]
            0 <= i < number_text(n).len() ==> '0' as int <= number_text(n)[i] as int <= '9' as int,
        n > 0 ==> number_text(n)[0] as int != '0' as int,
        n < 10 ==> number_text(n).len() == 1,
        read_number(number_text(n)) == n,
    decreases n,
{
    let text = number_text(n);
    if n < 10 {
        lemma_digit(n);
        assert(text.drop_last() =~= Seq::empty());
        assert(read_number(Seq::empty()) == 0);
        assert(text.last() == text[0]);
    } else {
        let head = number_text(n / 10);
        law_number_is_read_back(n / 10);
        lemma_digit(n % 10);
        assert(text == head + digit_text(n % 10));
        assert(text.drop_last() =~= head);
        assert(text.last() == digit_text(n % 10)[0]);
        assert forall|i: int| #![trigger text[i]] 0 <= i < text.len() implies '0' as int
            <= text[i] as int <= '9' as int by {
            if i < head.len() {
                assert(text[i] == head[i]);
            }
        }
        assert(text[0] == head[0]);
    }
}

/// A list of bytes is written in brackets; each byte but the first has a comma before it.
pub proof fn law_bytes_are_listed(bytes: Seq<u8>, more: u8)
    ensures
        bytes_text(Seq::empty()) == "["@ + "]"@,
        bytes_text(seq![more]) == "["@ + number_text(more as nat) + "]"@,
        bytes.len() > 0 ==> bytes_text(bytes.push(more)) == bytes_text(bytes).drop_last() + ", "@
            + number_text(more as nat) + "]"@,
{
    reveal_strlit("]");
    reveal_strlit("[");
    let one = seq![more];
    assert(first_bytes_text(one, 0) == Seq::<char>::empty());
    assert(first_bytes_text(one, 1) =~= number_text(more as nat));
    assert(first_bytes_text(Seq::empty(), 0) == Seq::<char>::empty());
    assert(bytes_text(Seq::empty()) =~= "["@ + "]"@);
    assert(bytes_text(one) =~= "["@ + number_text(more as nat) + "]"@);
    if bytes.len() > 0 {
        let all = bytes.push(more);
        lemma_same_first_bytes(all, bytes, bytes.len());
        assert(bytes_text(bytes).drop_last() =~= "["@ + first_bytes_text(bytes, bytes.len()));
        assert(bytes_text(all) =~= bytes_text(bytes).drop_last() + ", "@ + number_text(
            more as nat,
        ) + "]"@);
    }
}

proof fn lemma_same_first_bytes(a: Seq<u8>, b: Seq<u8>, n: nat)
    requires
        n <= a.len(),
        n <= b.len(),
        forall|i: int| 0 <= i < n ==> a[i] == b[i],
    ensures
        first_bytes_text(a, n) == first_bytes_text(b, n),
    decreases n,
{
    if n > 0 {
        lemma_same_first_bytes(a, b, (n - 1) as nat);
    }
}

/// Each entry of a leaf is written with its key, in stored form, and its value; each
/// separator with its key, in stored form, and its page; in their order, with a comma
/// before each but the first.
pub proof fn law_items_are_listed(
    lo: Seq<u8>,
    entries: Seq<(Seq<u8>, Seq<u8>)>,
    pointers: Seq<(Seq<u8>, PageId)>,
    pages: Seq<PageId>,
    n: nat,
)
    ensures
        first_entries_text(lo, entries, 0).len() == 0,
        first_pointers_text(lo, pointers, 0).len() == 0,
        first_pages_text(pages, 0).len() == 0,
        first_entries_text(lo, entries, n + 1) == first_entries_text(lo, entries, n) + (if n == 0 {
            Seq::empty()
        } else {
            ", "@
        }) + "("@ + bytes_text(encoded(lo, entries[n as int].0)) + ", "@ + bytes_text(
            entries[n as int].1,
        ) + ")"@,
        first_pointers_text(lo, pointers, n + 1) == first_pointers_text(lo, pointers, n) + (if n
            == 0 {
            Seq::empty()
        } else {
            ", "@
        }) + "("@ + bytes_text(encoded(lo, pointers[n as int].0)) + ", "@ + number_text(
            pointers[n as int].1 as nat,
        ) + ")"@,
        first_pages_text(pages, n + 1) == first_pages_text(pages, n) + (if n == 0 {
            Seq::empty()
        } else {
            ", "@
        }) + number_text(pages[n as int] as nat),
{
}

/// A node is written with all that it holds and all its parts, each under its name.
pub proof fn law_node_is_written_out(node: NodeView)
    ensures
        node_text(node) == "Node { data: "@ + (match node.data {
            DataView::Index(pointers) => "Index(["@ + first_pointers_text(
                node.lo,
                pointers,
                pointers.len(),
            ) + "])"@,
            DataView::Leaf(entries) => "Leaf(["@ + first_entries_text(
                node.lo,
                entries,
                entries.len(),
            ) + "])"@,
        }) + ", next: "@ + (match node.next {
            Some(page) => "Some("@ + number_text(page as nat) + ")"@,
            None => "None"@,
        }) + ", lo: "@ + bytes_text(node.lo) + ", hi: "@ + bytes_text(node.hi)
            + ", merging_child: "@ + (match node.merging_child {
            Some(page) => "Some("@ + number_text(page as nat) + ")"@,
            None => "None"@,
        }) + ", merging: "@ + (if node.merging {
            "true"@
        } else {
            "false"@
        }) + " }"@,
{
}

/// A path is written step by step from the root down, each on a line of its own with
/// its page; a tree with its pages and then level by level, each node of a level on a
/// line of its own, from left to right.
pub proof fn law_steps_and_levels_are_written_out(
    path: Seq<(PageId, Arc<Node>)>,
    s: Shape,
    count: nat,
    free: Seq<PageId>,
    l: nat,
    n: nat,
)
    ensures
        path_text(path, 0).len() == 0,
        path_text(path, n + 1) == path_text(path, n) + "\n"@ + number_text(path[n as int].0 as nat)
            + ": Base("@ + node_text(path[n as int].1@) + ")"@,
        tree_text(s, count, free) == "Tree: \n\t"@ + ("PageCache { max: "@ + number_text(count)
            + " free: ["@ + first_pages_text(free, free.len()) + "] }\n"@) + levels_text(
            s,
            s.levels.len(),
        ),
        levels_text(s, 0).len() == 0,
        levels_text(s, 1) == "\tlevel 0:\n"@ + level_text(s, 0, s.levels[0].len()),
        l > 0 ==> levels_text(s, l + 1) == levels_text(s, l) + ("\n\tlevel "@ + number_text(l)
            + ":\n"@) + level_text(s, l as int, s.levels[l as int].len()),
        level_text(s, l as int, 0).len() == 0,
        level_text(s, l as int, n + 1) == level_text(s, l as int, n) + "\t\t"@ + node_text(
            s.nodes[s.levels[l as int][n as int]],
        ) + "\n"@,
{
    assert(levels_text(s, 0) == Seq::<char>::empty());
    assert(levels_text(s, 1) =~= "\tlevel 0:\n"@ + level_text(s, 0, s.levels[0].len()));
}

} // verus!
