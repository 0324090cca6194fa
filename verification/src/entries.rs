//! The sorted entries of a node: keys, stored relative to the node's low key,
//! each with a value or with a page number.

use crate::key::{copy_bytes, group_key_order, is_same, key_le, key_lt, Standing};
use crate::prefix::{decodable, decoded, encoded, prefix_compare, prefix_decode, prefix_encode};
use vstd::prelude::*;

verus! {

/// What can stand beside a key in a node.
pub trait Payload: View + Sized {
    /// Copies the payload.
    fn duplicate(&self) -> (copy: Self)
        ensures
            copy@ == self@,
    ;

    /// Tells whether two payloads are the same.
    fn same(&self, other: &Self) -> (r: bool)
        ensures
            r == (self@ == other@),
    ;

    /// The number of bytes that the payload takes.
    spec fn spec_weight(&self) -> nat;

    /// The number of bytes that the payload takes.
    fn weight(&self) -> (n: usize)
        ensures
            n == self.spec_weight(),
    ;
}

impl Payload for u64 {
    fn duplicate(&self) -> (copy: Self) {
        *self
    }

    fn same(&self, other: &Self) -> (r: bool) {
        *self == *other
    }

    open spec fn spec_weight(&self) -> nat {
        8
    }

    fn weight(&self) -> (n: usize) {
        8
    }
}

impl Payload for Vec<u8> {
    fn duplicate(&self) -> (copy: Self) {
        copy_bytes(self.as_slice())
    }

    fn same(&self, other: &Self) -> (r: bool) {
        is_same(self.as_slice(), other.as_slice())
    }

    open spec fn spec_weight(&self) -> nat {
        self@.len()
    }

    fn weight(&self) -> (n: usize) {
        self.len()
    }
}

// ---------------------------------------------------------------------------
// The model: a sequence of keys with their payloads.

/// The keys of `s` rise strictly.
pub open spec fn sorted<V>(s: Seq<(Seq<u8>, V)>) -> bool {
    forall|i: int, j: int|
        #![trigger s[i], s[j]]
        0 <= i < j < s.len() ==> key_lt(s[i].0, s[j].0)
}

/// The number of entries of `s` that come before `key`.
pub open spec fn rank<V>(s: Seq<(Seq<u8>, V)>, key: Seq<u8>) -> int
    decreases s.len(),
{
    if s.len() == 0 {
        0
    } else if key_lt(s.last().0, key) {
        s.len() as int
    } else {
        rank(s.drop_last(), key)
    }
}

/// Whether `s` has an entry for `key`.
pub open spec fn holds_key<V>(s: Seq<(Seq<u8>, V)>, key: Seq<u8>) -> bool {
    rank(s, key) < s.len() && s[rank(s, key)].0 == key
}

/// What `s` holds for `key`.
pub open spec fn lookup<V>(s: Seq<(Seq<u8>, V)>, key: Seq<u8>) -> Option<V> {
    if holds_key(s, key) {
        Some(s[rank(s, key)].1)
    } else {
        None
    }
}

/// The map that `s` stands for.
pub open spec fn to_map<V>(s: Seq<(Seq<u8>, V)>) -> Map<Seq<u8>, V> {
    Map::new(|key: Seq<u8>| holds_key(s, key), |key: Seq<u8>| s[rank(s, key)].1)
}

/// `s` with `value` for `key`, in its place.
pub open spec fn with_entry<V>(s: Seq<(Seq<u8>, V)>, key: Seq<u8>, value: V) -> Seq<(Seq<u8>, V)> {
    if holds_key(s, key) {
        s.update(rank(s, key), (key, value))
    } else {
        s.insert(rank(s, key), (key, value))
    }
}

/// `s` without an entry for `key`.
pub open spec fn without_entry<V>(s: Seq<(Seq<u8>, V)>, key: Seq<u8>) -> Seq<(Seq<u8>, V)> {
    if holds_key(s, key) {
        s.remove(rank(s, key))
    } else {
        s
    }
}

/// Those entries of `s` that come before `key`.
pub open spec fn below<V>(s: Seq<(Seq<u8>, V)>, key: Seq<u8>) -> Seq<(Seq<u8>, V)> {
    s.take(rank(s, key))
}

/// The rank of a key parts the entries into those before it and the others.
pub proof fn lemma_rank<V>(s: Seq<(Seq<u8>, V)>, key: Seq<u8>)
    requires
        sorted(s),
    ensures
        0 <= rank(s, key) <= s.len(),
        forall|i: int| #![trigger s[i]] 0 <= i < rank(s, key) ==> key_lt(s[i].0, key),
        forall|i: int| #![trigger s[i]] rank(s, key) <= i < s.len() ==> key_le(key, s[i].0),
    decreases s.len(),
{
    broadcast use group_key_order;

    if s.len() == 0 {
    } else if key_lt(s.last().0, key) {
        assert forall|i: int| #![trigger s[i]] 0 <= i < s.len() implies key_lt(s[i].0, key) by {
            if i < s.len() - 1 {
                assert(key_lt(s[i].0, s[s.len() - 1].0));
            }
        }
    } else {
        let t = s.drop_last();
        assert(sorted(t)) by {
            assert forall|i: int, j: int| #![trigger t[i], t[j]] 0 <= i < j < t.len() implies key_lt(
                t[i].0,
                t[j].0,
            ) by {
                assert(t[i] == s[i] && t[j] == s[j]);
            }
        }
        lemma_rank(t, key);
        assert forall|i: int| #![trigger s[i]] 0 <= i < rank(s, key) implies key_lt(
            s[i].0,
            key,
        ) by {
            assert(t[i] == s[i]);
        }
        assert forall|i: int| #![trigger s[i]] rank(s, key) <= i < s.len() implies key_le(
            key,
            s[i].0,
        ) by {
            if i < s.len() - 1 {
                assert(t[i] == s[i]);
            }
        }
    }
}

/// A position that parts the entries around a key is that key's rank.
pub proof fn lemma_rank_is<V>(s: Seq<(Seq<u8>, V)>, key: Seq<u8>, n: int)
    requires
        sorted(s),
        0 <= n <= s.len(),
        n > 0 ==> key_lt(s[n - 1].0, key),
        n < s.len() ==> key_le(key, s[n].0),
    ensures
        rank(s, key) == n,
{
    broadcast use group_key_order;

    lemma_rank(s, key);
    let r = rank(s, key);
    if r < n {
        assert(key_le(key, s[r].0));
        if r < n - 1 {
            assert(key_lt(s[r].0, s[n - 1].0));
        }
    } else if n < r {
        assert(key_lt(s[n].0, key));
    }
}

/// An entry is found under its own key.
pub proof fn lemma_entry_found<V>(s: Seq<(Seq<u8>, V)>, i: int)
    requires
        sorted(s),
        0 <= i < s.len(),
    ensures
        rank(s, s[i].0) == i,
        holds_key(s, s[i].0),
        lookup(s, s[i].0) == Some(s[i].1),
{
    broadcast use group_key_order;

    if i > 0 {
        assert(key_lt(s[i - 1].0, s[i].0));
    }
    lemma_rank_is(s, s[i].0, i);
}

/// Putting an entry keeps the order, and changes what is held for its key alone.
pub proof fn lemma_with_entry<V>(s: Seq<(Seq<u8>, V)>, key: Seq<u8>, value: V)
    requires
        sorted(s),
    ensures
        sorted(with_entry(s, key, value)),
        holds_key(with_entry(s, key, value), key),
        rank(with_entry(s, key, value), key) == rank(s, key),
        to_map(with_entry(s, key, value)) == to_map(s).insert(key, value),
{
    broadcast use group_key_order;

    let t = with_entry(s, key, value);
    let r = rank(s, key);
    lemma_rank(s, key);
    assert forall|i: int, j: int| #![trigger t[i], t[j]] 0 <= i < j < t.len() implies key_lt(
        t[i].0,
        t[j].0,
    ) by {
        if holds_key(s, key) {
            assert(t[i].0 == s[i].0 && t[j].0 == s[j].0);
        } else {
            let a = if i < r {
                i
            } else {
                i - 1
            };
            let b = if j < r {
                j
            } else {
                j - 1
            };
            if i != r {
                assert(t[i] == s[a]);
            }
            if j != r {
                assert(t[j] == s[b]);
            }
        }
    }
    assert(t[r] == (key, value));
    lemma_entry_found(t, r);
    assert forall|k: Seq<u8>| k != key implies #[trigger] holds_key(t, k) == holds_key(s, k) && lookup(t, k)
        == lookup(s, k) by {
        lemma_rank(s, k);
        lemma_rank(t, k);
        if holds_key(s, k) {
            let i = rank(s, k);
            let j = if holds_key(s, key) || i < r {
                i
            } else {
                i + 1
            };
            assert(t[j] == s[i]);
            lemma_entry_found(t, j);
        }
        if holds_key(t, k) {
            let j = rank(t, k);
            let i = if holds_key(s, key) || j < r {
                j
            } else {
                j - 1
            };
            assert(t[j] == s[i]);
            lemma_entry_found(s, i);
        }
    }
    assert(to_map(t) =~= to_map(s).insert(key, value)) by {
        assert forall|k: Seq<u8>| to_map(t).dom().contains(k) == to_map(s).insert(
            key,
            value,
        ).dom().contains(k) by {
            if k != key {
                assert(holds_key(t, k) == holds_key(s, k));
            }
        }
        assert forall|k: Seq<u8>| to_map(t).dom().contains(k) implies to_map(t)[k] == to_map(
            s,
        ).insert(key, value)[k] by {
            if k != key {
                assert(holds_key(t, k) == holds_key(s, k));
                assert(lookup(t, k) == lookup(s, k));
            }
        }
    }
}

/// Taking an entry out keeps the order, and changes what is held for its key alone.
pub proof fn lemma_without_entry<V>(s: Seq<(Seq<u8>, V)>, key: Seq<u8>)
    requires
        sorted(s),
    ensures
        sorted(without_entry(s, key)),
        to_map(without_entry(s, key)) == to_map(s).remove(key),
{
    broadcast use group_key_order;

    let t = without_entry(s, key);
    let r = rank(s, key);
    lemma_rank(s, key);
    if holds_key(s, key) {
        assert forall|i: int, j: int| #![trigger t[i], t[j]] 0 <= i < j < t.len() implies key_lt(
            t[i].0,
            t[j].0,
        ) by {
            let a = if i < r {
                i
            } else {
                i + 1
            };
            let b = if j < r {
                j
            } else {
                j + 1
            };
            assert(t[i] == s[a] && t[j] == s[b]);
        }
    }
    assert forall|k: Seq<u8>| #[trigger] holds_key(t, k) == (holds_key(s, k) && k != key) && (k != key
        ==> lookup(t, k) == lookup(s, k)) by {
        lemma_rank(s, k);
        lemma_rank(t, k);
        if holds_key(s, k) && k != key {
            let i = rank(s, k);
            let j = if !holds_key(s, key) || i < r {
                i
            } else {
                i - 1
            };
            assert(t[j] == s[i]);
            lemma_entry_found(t, j);
        }
        if holds_key(t, k) {
            let j = rank(t, k);
            let i = if !holds_key(s, key) || j < r {
                j
            } else {
                j + 1
            };
            assert(t[j] == s[i]);
            lemma_entry_found(s, i);
            if k == key {
                assert(i == r);
            }
        }
    }
    assert(to_map(t) =~= to_map(s).remove(key)) by {
        assert forall|k: Seq<u8>| to_map(t).dom().contains(k) == to_map(s).remove(
            key,
        ).dom().contains(k) by {
            assert(holds_key(t, k) == (holds_key(s, k) && k != key));
        }
        assert forall|k: Seq<u8>| to_map(t).dom().contains(k) implies to_map(t)[k] == to_map(
            s,
        ).remove(key)[k] by {
            assert(holds_key(t, k));
            assert(lookup(t, k) == lookup(s, k));
        }
    }
}

/// Two runs of entries, one after the other, hold what either holds.
pub proof fn lemma_append<V>(s: Seq<(Seq<u8>, V)>, t: Seq<(Seq<u8>, V)>, key: Seq<u8>)
    requires
        sorted(s + t),
    ensures
        sorted(s),
        sorted(t),
        holds_key(s + t, key) == (holds_key(s, key) || holds_key(t, key)),
        holds_key(s, key) ==> lookup(s + t, key) == lookup(s, key),
        holds_key(t, key) ==> lookup(s + t, key) == lookup(t, key),
{
    let u = s + t;
    assert forall|i: int, j: int| #![trigger s[i], s[j]] 0 <= i < j < s.len() implies key_lt(
        s[i].0,
        s[j].0,
    ) by {
        assert(u[i] == s[i] && u[j] == s[j]);
    }
    assert forall|i: int, j: int| #![trigger t[i], t[j]] 0 <= i < j < t.len() implies key_lt(
        t[i].0,
        t[j].0,
    ) by {
        assert(u[i + s.len()] == t[i] && u[j + s.len()] == t[j]);
    }
    lemma_rank(u, key);
    lemma_rank(s, key);
    lemma_rank(t, key);
    if holds_key(s, key) {
        let i = rank(s, key);
        assert(u[i] == s[i]);
        lemma_entry_found(u, i);
    }
    if holds_key(t, key) {
        let i = rank(t, key);
        assert(u[i + s.len()] == t[i]);
        lemma_entry_found(u, i + s.len());
    }
    if holds_key(u, key) {
        let i = rank(u, key);
        if i < s.len() {
            assert(u[i] == s[i]);
            lemma_entry_found(s, i);
        } else {
            assert(u[i] == t[i - s.len()]);
            lemma_entry_found(t, i - s.len());
        }
    }
}

// ---------------------------------------------------------------------------
// The entries as they are stored.

/// The keys and payloads that `items` stand for in a node whose low key is `lo`.
pub open spec fn entries_view<T: Payload>(lo: Seq<u8>, items: Seq<(Vec<u8>, T)>) -> Seq<
    (Seq<u8>, T::V),
> {
    Seq::new(items.len(), |i: int| (decoded(lo, items[i].0@), items[i].1@))
}

/// Every key of `items` is in the form in which a node whose low key is `lo` stores it.
pub open spec fn entries_stored<T: Payload>(lo: Seq<u8>, items: Seq<(Vec<u8>, T)>) -> bool {
    forall|i: int|
        #![trigger items[i]]
        0 <= i < items.len() ==> decodable(lo, items[i].0@) && items[i].0@ == encoded(
            lo,
            decoded(lo, items[i].0@),
        )
}

/// Finds the rank of `key`, and tells whether an entry for it stands there.
pub fn search<T: Payload>(items: &Vec<(Vec<u8>, T)>, lo: &[u8], key: &[u8]) -> (r: (usize, bool))
    requires
        entries_stored(lo@, items@),
        sorted(entries_view(lo@, items@)),
    ensures
        r.0 == rank(entries_view(lo@, items@), key@),
        r.0 <= items.len(),
        r.1 == holds_key(entries_view(lo@, items@), key@),
{
    broadcast use group_key_order;

    let ghost s = entries_view(lo@, items@);
    proof {
        lemma_rank(s, key@);
    }
    let mut low: usize = 0;
    let mut high: usize = items.len();
    while low < high
        invariant
            entries_stored(lo@, items@),
            s == entries_view(lo@, items@),
            sorted(s),
            0 <= low <= high <= items.len(),
            low > 0 ==> key_lt(s[low - 1].0, key@),
            high < s.len() ==> key_lt(key@, s[high as int].0),
        decreases high - low,
    {
        let mid: usize = low + (high - low) / 2;
        let ghost probe = items@[mid as int];
        assert(s[mid as int].0 == decoded(lo@, probe.0@));
        match prefix_compare(items[mid].0.as_slice(), key, lo) {
            Standing::Before => {
                low = mid + 1;
            },
            Standing::Same => {
                proof {
                    lemma_entry_found(s, mid as int);
                }
                return (mid, true);
            },
            Standing::After => {
                high = mid;
            },
        }
    }
    proof {
        lemma_rank_is(s, key@, low as int);
    }
    (low, false)
}

/// The last entry whose key is not after `key`.
pub fn binary_search_lub<T: Payload>(
    items: &Vec<(Vec<u8>, T)>,
    lo: &[u8],
    key: &[u8],
) -> (r: Option<usize>)
    requires
        entries_stored(lo@, items@),
        sorted(entries_view(lo@, items@)),
    ensures
        match r {
            Some(i) => {
                &&& i < items.len()
                &&& key_le(entries_view(lo@, items@)[i as int].0, key@)
                &&& forall|j: int|
                    #![trigger entries_view(lo@, items@)[j]]
                    i < j < items.len() ==> key_lt(key@, entries_view(lo@, items@)[j].0)
            },
            None => forall|j: int|
                #![trigger entries_view(lo@, items@)[j]]
                0 <= j < items.len() ==> key_lt(key@, entries_view(lo@, items@)[j].0),
        },
{
    broadcast use group_key_order;

    let (at, found) = search(items, lo, key);
    let ghost s = entries_view(lo@, items@);
    proof {
        lemma_rank(s, key@);
        assert forall|j: int| #![trigger s[j]] at <= j < s.len() && !(found && j == at) implies key_lt(
            key@,
            s[j].0,
        ) by {
            if found {
                assert(key_lt(s[at as int].0, s[j].0));
            } else if s[j].0 == key@ {
                lemma_entry_found(s, j);
            }
        }
    }
    if found {
        Some(at)
    } else if at > 0 {
        Some(at - 1)
    } else {
        None
    }
}

/// On which side of a key to look for its neighbour.
#[derive(Clone, Copy, PartialEq, Eq, Structural, Debug)]
pub enum Side {
    /// The last entry before the key.
    Less,
    /// The first entry after the key.
    Greater,
}

/// Whether entry `i` of `s` is the neighbour of `key` on the given side.
pub open spec fn is_neighbour<V>(s: Seq<(Seq<u8>, V)>, side: Side, key: Seq<u8>, i: int) -> bool {
    &&& 0 <= i < s.len()
    &&& match side {
        Side::Less => key_lt(s[i].0, key) && forall|j: int|
            #![trigger s[j]]
            i < j < s.len() ==> key_le(key, s[j].0),
        Side::Greater => key_lt(key, s[i].0) && forall|j: int|
            #![trigger s[j]]
            0 <= j < i ==> key_le(s[j].0, key),
    }
}

/// Whether no entry of `s` is on the given side of `key`.
pub open spec fn no_neighbour<V>(s: Seq<(Seq<u8>, V)>, side: Side, key: Seq<u8>) -> bool {
    forall|j: int|
        #![trigger s[j]]
        0 <= j < s.len() ==> match side {
            Side::Less => key_le(key, s[j].0),
            Side::Greater => key_le(s[j].0, key),
        }
}

/// The neighbour of `key` on the given side, among the entries of one node.
pub fn leaf_search<T: Payload>(
    side: Side,
    items: &Vec<(Vec<u8>, T)>,
    lo: &[u8],
    key: &[u8],
) -> (r: Option<usize>)
    requires
        entries_stored(lo@, items@),
        sorted(entries_view(lo@, items@)),
    ensures
        match r {
            Some(i) => is_neighbour(entries_view(lo@, items@), side, key@, i as int),
            None => no_neighbour(entries_view(lo@, items@), side, key@),
        },
{
    broadcast use group_key_order;

    let (at, found) = search(items, lo, key);
    let ghost s = entries_view(lo@, items@);
    proof {
        lemma_rank(s, key@);
        assert forall|j: int| #![trigger s[j]] at <= j < s.len() && !(found && j == at) implies key_lt(
            key@,
            s[j].0,
        ) by {
            if found {
                assert(key_lt(s[at as int].0, s[j].0));
            } else if s[j].0 == key@ {
                lemma_entry_found(s, j);
            }
        }
    }
    match side {
        Side::Less => {
            if at > 0 {
                Some(at - 1)
            } else {
                None
            }
        },
        Side::Greater => {
            let next: usize = if found {
                at + 1
            } else {
                at
            };
            if next < items.len() {
                Some(next)
            } else {
                None
            }
        },
    }
}

/// Puts `value` under a stored key.
pub fn put<T: Payload>(items: &mut Vec<(Vec<u8>, T)>, lo: &[u8], stored: Vec<u8>, value: T)
    requires
        entries_stored(lo@, old(items)@),
        sorted(entries_view(lo@, old(items)@)),
        decodable(lo@, stored@),
        stored@ == encoded(lo@, decoded(lo@, stored@)),
    ensures
        entries_stored(lo@, final(items)@),
        entries_view(lo@, final(items)@) == with_entry(
            entries_view(lo@, old(items)@),
            decoded(lo@, stored@),
            value@,
        ),
{
    let key = prefix_decode(lo, stored.as_slice());
    let (at, found) = search(items, lo, key.as_slice());
    let ghost before = items@;
    if found {
        items.set(at, (stored, value));
    } else {
        items.insert(at, (stored, value));
    }
    proof {
        assert(entries_view(lo@, items@) =~= with_entry(entries_view(lo@, before), key@, value@));
        assert forall|i: int| #![trigger items@[i]] 0 <= i < items@.len() implies decodable(
            lo@,
            items@[i].0@,
        ) && items@[i].0@ == encoded(lo@, decoded(lo@, items@[i].0@)) by {
            if i != at {
                let j = if found || i < at {
                    i
                } else {
                    i - 1
                };
                assert(items@[i] == before[j]);
            }
        }
    }
}

/// Takes out the entry for a stored key, if there is one.
pub fn take_out<T: Payload>(items: &mut Vec<(Vec<u8>, T)>, lo: &[u8], stored: &[u8])
    requires
        entries_stored(lo@, old(items)@),
        sorted(entries_view(lo@, old(items)@)),
        decodable(lo@, stored@),
    ensures
        entries_stored(lo@, final(items)@),
        entries_view(lo@, final(items)@) == without_entry(
            entries_view(lo@, old(items)@),
            decoded(lo@, stored@),
        ),
{
    let key = prefix_decode(lo, stored);
    let (at, found) = search(items, lo, key.as_slice());
    let ghost before = items@;
    if found {
        items.remove(at);
    }
    proof {
        assert(entries_view(lo@, items@) =~= without_entry(entries_view(lo@, before), key@));
        assert forall|i: int| #![trigger items@[i]] 0 <= i < items@.len() implies decodable(
            lo@,
            items@[i].0@,
        ) && items@[i].0@ == encoded(lo@, decoded(lo@, items@[i].0@)) by {
            let j = if !found || i < at {
                i
            } else {
                i + 1
            };
            assert(items@[i] == before[j]);
        }
    }
}

/// Drops the entry at `at`.
pub fn drop_at<T: Payload>(items: &mut Vec<(Vec<u8>, T)>, lo: &[u8], at: usize)
    requires
        entries_stored(lo@, old(items)@),
        at < old(items).len(),
    ensures
        entries_stored(lo@, final(items)@),
        entries_view(lo@, final(items)@) == entries_view(lo@, old(items)@).remove(at as int),
{
    let ghost before = items@;
    items.remove(at);
    proof {
        assert(entries_view(lo@, items@) =~= entries_view(lo@, before).remove(at as int));
        assert forall|i: int| #![trigger items@[i]] 0 <= i < items@.len() implies decodable(
            lo@,
            items@[i].0@,
        ) && items@[i].0@ == encoded(lo@, decoded(lo@, items@[i].0@)) by {
            let j = if i < at {
                i
            } else {
                i + 1
            };
            assert(items@[i] == before[j]);
        }
    }
}

/// Drops the entries that do not come before `key`.
pub fn drop_from<T: Payload>(items: &mut Vec<(Vec<u8>, T)>, lo: &[u8], key: &[u8])
    requires
        entries_stored(lo@, old(items)@),
        sorted(entries_view(lo@, old(items)@)),
    ensures
        entries_stored(lo@, final(items)@),
        entries_view(lo@, final(items)@) == below(entries_view(lo@, old(items)@), key@),
{
    let (at, _found) = search(items, lo, key);
    let ghost before = items@;
    items.truncate(at);
    proof {
        assert(entries_view(lo@, items@) =~= below(entries_view(lo@, before), key@));
        assert forall|i: int| #![trigger items@[i]] 0 <= i < items@.len() implies decodable(
            lo@,
            items@[i].0@,
        ) && items@[i].0@ == encoded(lo@, decoded(lo@, items@[i].0@)) by {
            assert(items@[i] == before[i]);
        }
    }
}

/// Appends the entries of `source`, from `from` on, stored anew for the low key `lo`.
pub fn append_entries<T: Payload>(
    items: &mut Vec<(Vec<u8>, T)>,
    lo: &[u8],
    source: &Vec<(Vec<u8>, T)>,
    source_lo: &[u8],
    from: usize,
)
    requires
        entries_stored(lo@, old(items)@),
        entries_stored(source_lo@, source@),
        from <= source.len(),
    ensures
        entries_stored(lo@, final(items)@),
        entries_view(lo@, final(items)@) == entries_view(lo@, old(items)@) + entries_view(
            source_lo@,
            source@,
        ).skip(from as int),
{
    let ghost before = entries_view(lo@, items@);
    let ghost other = entries_view(source_lo@, source@);
    let mut i: usize = from;
    assert(before + other.subrange(from as int, from as int) =~= before);
    while i < source.len()
        invariant
            from <= i <= source.len(),
            entries_stored(lo@, items@),
            entries_stored(source_lo@, source@),
            other == entries_view(source_lo@, source@),
            entries_view(lo@, items@) == before + other.subrange(from as int, i as int),
        decreases source.len() - i,
    {
        let ghost entry = source@[i as int];
        let key = prefix_decode(source_lo, source[i].0.as_slice());
        let stored = prefix_encode(lo, key.as_slice());
        let value = source[i].1.duplicate();
        let ghost previous = items@;
        items.push((stored, value));
        proof {
            assert(other[i as int] == (key@, value@));
            assert(entries_view(lo@, items@) =~= before + other.subrange(from as int, i + 1)) by {
                assert(entries_view(lo@, items@) =~= entries_view(lo@, previous).push((key@, value@)));
            }
            assert forall|j: int| #![trigger items@[j]] 0 <= j < items@.len() implies decodable(
                lo@,
                items@[j].0@,
            ) && items@[j].0@ == encoded(lo@, decoded(lo@, items@[j].0@)) by {
                if j < previous.len() {
                    assert(items@[j] == previous[j]);
                }
            }
        }
        i = i + 1;
    }
    assert(other.subrange(from as int, source.len() as int) =~= other.skip(from as int));
}

/// Copies entries.
pub fn copy_entries<T: Payload>(items: &Vec<(Vec<u8>, T)>, lo: &[u8]) -> (copy: Vec<(Vec<u8>, T)>)
    requires
        entries_stored(lo@, items@),
    ensures
        entries_stored(lo@, copy@),
        entries_view(lo@, copy@) == entries_view(lo@, items@),
{
    let mut copy: Vec<(Vec<u8>, T)> = Vec::new();
    let mut i: usize = 0;
    while i < items.len()
        invariant
            i == copy.len(),
            i <= items.len(),
            forall|j: int|
                #![trigger copy@[j]]
                0 <= j < i ==> copy@[j].0@ == items@[j].0@ && copy@[j].1@ == items@[j].1@,
        decreases items.len() - i,
    {
        copy.push((copy_bytes(items[i].0.as_slice()), items[i].1.duplicate()));
        i = i + 1;
    }
    proof {
        assert(entries_view(lo@, copy@) =~= entries_view(lo@, items@));
        assert forall|j: int| #![trigger copy@[j]] 0 <= j < copy@.len() implies decodable(
            lo@,
            copy@[j].0@,
        ) && copy@[j].0@ == encoded(lo@, decoded(lo@, copy@[j].0@)) by {
            assert(copy@[j].0@ == items@[j].0@);
        }
    }
    copy
}

/// Tells whether the entries of two nodes with the same low key are the same.
pub(crate) fn same_entries<T: Payload>(
    a: &Vec<(Vec<u8>, T)>,
    b: &Vec<(Vec<u8>, T)>,
    Ghost(lo): Ghost<Seq<u8>>,
) -> (r: bool)
    requires
        entries_stored(lo, a@),
        entries_stored(lo, b@),
    ensures
        r == (entries_view(lo, a@) == entries_view(lo, b@)),
{
    let ghost s = entries_view(lo, a@);
    let ghost t = entries_view(lo, b@);
    if a.len() != b.len() {
        assert(s.len() != t.len());
        return false;
    }
    let mut i: usize = 0;
    while i < a.len()
        invariant
            i <= a.len() == b.len(),
            entries_stored(lo, a@),
            entries_stored(lo, b@),
            s == entries_view(lo, a@),
            t == entries_view(lo, b@),
            forall|j: int| 0 <= j < i ==> s[j] == t[j],
        decreases a.len() - i,
    {
        let ghost x = a@[i as int];
        let ghost y = b@[i as int];
        assert(s[i as int] == (decoded(lo, x.0@), x.1@));
        assert(t[i as int] == (decoded(lo, y.0@), y.1@));
        if !is_same(a[i].0.as_slice(), b[i].0.as_slice()) || !a[i].1.same(&b[i].1) {
            assert(s[i as int] != t[i as int]);
            return false;
        }
        i = i + 1;
    }
    assert(s =~= t);
    true
}

/// The number of bytes that the first `n` entries take, as they are stored.
pub open spec fn entries_size<T: Payload>(items: Seq<(Vec<u8>, T)>, n: nat) -> nat
    decreases n,
{
    if n == 0 {
        0
    } else {
        entries_size(items, (n - 1) as nat) + items[n - 1].0@.len() + items[n - 1].1.spec_weight()
    }
}

proof fn lemma_entries_size_monotonic<T: Payload>(items: Seq<(Vec<u8>, T)>, m: nat, n: nat)
    requires
        m <= n,
    ensures
        entries_size(items, m) <= entries_size(items, n),
    decreases n,
{
    if m < n {
        lemma_entries_size_monotonic(items, m, (n - 1) as nat);
    }
}

/// Tells whether entries take more than `max` bytes.
pub fn larger_than<T: Payload>(items: &Vec<(Vec<u8>, T)>, max: u64) -> (r: bool)
    ensures
        r == (entries_size(items@, items@.len()) > max),
{
    let mut total: u64 = 0;
    let mut i: usize = 0;
    while i < items.len()
        invariant
            i <= items.len(),
            total == entries_size(items@, i as nat),
            total <= max,
        decreases items.len() - i,
    {
        proof {
            lemma_entries_size_monotonic(items@, (i + 1) as nat, items@.len());
        }
        let key_size: u64 = items[i].0.len() as u64;
        let value_size: u64 = items[i].1.weight() as u64;
        if key_size > max - total || value_size > max - total - key_size {
            return true;
        }
        total = total + key_size + value_size;
        i = i + 1;
    }
    false
}

} // verus!
