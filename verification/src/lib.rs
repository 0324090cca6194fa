//! An ordered key-value store kept in a B-link tree.
//!
//! A [`tree::Tree`] stands for a map from byte strings to byte strings. It is kept
//! in nodes on numbered pages. A node may be split, or merged into its left
//! sibling, a step at a time; a search that comes across such work completes it.
//!
//! From the bottom up: keys and how nodes store them ([`key`], [`prefix`],
//! [`entries`]), nodes and pages ([`node`], [`pagecache`]), the shape of a tree and
//! what may happen to it ([`shape`], [`moves`]), what else a tree has ([`error`],
//! [`subscription`], [`journal`]), the tree and its operations ([`tree`],
//! [`traverse`], [`help`], [`clearing`], [`split`], [`calls`], [`write`],
//! [`neighbours`], [`iter`], [`whole`], [`maintain`], [`collect`], [`text`]), and what
//! holds across them: of one operation after another ([`laws`]), of what goes into each
//! and comes out ([`meaning`]), of journals ([`lasting`]), of pages ([`layout`]) and of
//! what is written out ([`wording`]).

pub mod key;
pub mod prefix;
pub mod entries;
pub mod node;
pub mod pagecache;
pub mod shape;
pub mod moves;
pub mod error;
pub mod subscription;
pub mod journal;
pub mod tree;
pub mod traverse;
pub mod help;
pub mod clearing;
pub mod split;
pub mod calls;
pub mod write;
pub mod neighbours;
pub mod iter;
pub mod whole;
pub mod maintain;
pub mod collect;
pub mod text;
pub mod laws;
pub mod meaning;
pub mod lasting;
pub mod layout;
pub mod wording;
