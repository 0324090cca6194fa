# sled

An ordered map from byte strings to byte strings, kept in a B-link tree.

- `src/` is the library. Every function in it has a contract that Verus proves;
  nothing in it is taken on trust.
- `tests/` runs it: `documented.rs` goes through the uses that the documentation
  of each operation describes, `behaviour.rs` through the rest of what a tree does,
  and `parts.rs` through the parts of which it is made.
- `app/` shares a tree among threads and keeps it in a file.

## What a tree is

The contents of a tree are a `Map<Seq<u8>, Seq<u8>>`, written `tree@`. They are
kept in leaves below index nodes. `shape.rs` states when nodes and pages form a
tree: each level is a chain that covers all keys, and each pointer leads to a node
of the level below that starts at the separator. Splits and merges may be under
way; `moves.rs` proves that each of their steps keeps the shape and the contents.

Searches complete the splits and merges on their way; `help.rs` states which pages
that changes, and how, and `clearing.rs` that no announced merge is left there.

Operations take the tree by exclusive reference. A write looks its leaf up
(`get_internal`) and then changes it if it is still as it was found (`try_set`,
`try_write`, `try_merge`). What the second step promises holds in whatever state
the tree is by then, so the two may be done under separate locks.

## What outlives a crash

Each write is put down in a journal. `dirty_bytes` are those that have yet to
reach stable storage, and `flush` takes note that they have. `recover` makes a tree
of a journal. `law_flushed_writes_survive` in `laws.rs` says what that gives back.
