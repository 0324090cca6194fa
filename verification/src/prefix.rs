//! Keys inside a node are stored without the bytes that they share with the
//! node's low key. The first byte of a stored key counts the bytes left out.

use crate::key::{key_lt, parts_at, stands, Standing};
use vstd::prelude::*;

verus! {

/// How many of `key`'s leading bytes, from `i` on, can be taken from `prefix`.
pub open spec fn shared_len(prefix: Seq<u8>, key: Seq<u8>, i: int) -> int
    decreases prefix.len() - i,
{
    if 0 <= i < 255 && i < prefix.len() && i < key.len() && prefix[i] == key[i] {
        shared_len(prefix, key, i + 1)
    } else {
        i
    }
}

/// The stored form of `key` in a node whose low key is `prefix`.
pub open spec fn encoded(prefix: Seq<u8>, key: Seq<u8>) -> Seq<u8> {
    let n = shared_len(prefix, key, 0);
    seq![n as u8] + key.subrange(n, key.len() as int)
}

/// Whether `stored` can be read in a node whose low key is `prefix`.
pub open spec fn decodable(prefix: Seq<u8>, stored: Seq<u8>) -> bool {
    stored.len() > 0 && stored[0] <= prefix.len()
}

/// The key that `stored` stands for in a node whose low key is `prefix`.
pub open spec fn decoded(prefix: Seq<u8>, stored: Seq<u8>) -> Seq<u8> {
    prefix.subrange(0, stored[0] as int) + stored.subrange(1, stored.len() as int)
}

pub proof fn lemma_shared_len(prefix: Seq<u8>, key: Seq<u8>, i: int)
    requires
        0 <= i <= 255,
        i <= prefix.len(),
        i <= key.len(),
    ensures
        i <= shared_len(prefix, key, i) <= 255,
        shared_len(prefix, key, i) <= prefix.len(),
        shared_len(prefix, key, i) <= key.len(),
        forall|j: int| i <= j < shared_len(prefix, key, i) ==> prefix[j] == key[j],
    decreases prefix.len() - i,
{
    if i < 255 && i < prefix.len() && i < key.len() && prefix[i] == key[i] {
        lemma_shared_len(prefix, key, i + 1);
    }
}

/// Reading back what was stored gives the key again.
pub proof fn lemma_decode_encode(prefix: Seq<u8>, key: Seq<u8>)
    ensures
        decodable(prefix, encoded(prefix, key)),
        decoded(prefix, encoded(prefix, key)) == key,
{
    lemma_shared_len(prefix, key, 0);
    assert(decoded(prefix, encoded(prefix, key)) =~= key);
}

/// A key is stored as the number of bytes that it shares with the node's low key, as
/// many as there are but no more than a byte can count, and the bytes after them.
pub proof fn law_shared_bytes_are_left_out(prefix: Seq<u8>, key: Seq<u8>)
    ensures
        encoded(prefix, key).len() > 0,
        ({
            let n = encoded(prefix, key)[0] as int;
            &&& n <= prefix.len() && n <= key.len()
            &&& key == prefix.take(n) + encoded(prefix, key).skip(1)
            &&& n < 255 && n < prefix.len() && n < key.len() ==> prefix[n] != key[n]
        }),
{
    lemma_shared_len(prefix, key, 0);
    lemma_shared_len_ends(prefix, key, 0);
    let n = shared_len(prefix, key, 0);
    assert(encoded(prefix, key)[0] == n);
    assert(key =~= prefix.take(n) + encoded(prefix, key).skip(1));
}

proof fn lemma_shared_len_ends(prefix: Seq<u8>, key: Seq<u8>, i: int)
    requires
        0 <= i <= 255,
        i <= prefix.len(),
        i <= key.len(),
    ensures
        ({
            let n = shared_len(prefix, key, i);
            n < 255 && n < prefix.len() && n < key.len() ==> prefix[n] != key[n]
        }),
    decreases prefix.len() - i,
{
    if i < 255 && i < prefix.len() && i < key.len() && prefix[i] == key[i] {
        lemma_shared_len_ends(prefix, key, i + 1);
    }
}

/// Stores `key` for a node whose low key is `prefix`.
pub fn prefix_encode(prefix: &[u8], key: &[u8]) -> (stored: Vec<u8>)
    ensures
        stored@ == encoded(prefix@, key@),
        decodable(prefix@, stored@),
        decoded(prefix@, stored@) == key@,
{
    let mut n: usize = 0;
    while n < 255 && n < prefix.len() && n < key.len() && prefix[n] == key[n]
        invariant
            n <= 255,
            n <= prefix@.len(),
            n <= key@.len(),
            shared_len(prefix@, key@, 0) == shared_len(prefix@, key@, n as int),
        decreases prefix@.len() - n,
    {
        n = n + 1;
    }
    let mut stored: Vec<u8> = Vec::new();
    stored.push(n as u8);
    let mut i: usize = n;
    while i < key.len()
        invariant
            n <= i <= key@.len(),
            stored@ =~= seq![n as u8] + key@.subrange(n as int, i as int),
        decreases key@.len() - i,
    {
        stored.push(key[i]);
        i = i + 1;
    }
    proof {
        lemma_decode_encode(prefix@, key@);
    }
    stored
}

/// Reads a stored key in a node whose low key is `prefix`.
pub fn prefix_decode(prefix: &[u8], stored: &[u8]) -> (key: Vec<u8>)
    requires
        decodable(prefix@, stored@),
    ensures
        key@ == decoded(prefix@, stored@),
{
    let n: usize = stored[0] as usize;
    let mut key: Vec<u8> = Vec::new();
    let mut i: usize = 0;
    while i < n
        invariant
            i <= n <= prefix@.len(),
            key@ =~= prefix@.subrange(0, i as int),
        decreases n - i,
    {
        key.push(prefix[i]);
        i = i + 1;
    }
    let mut j: usize = 1;
    while j < stored.len()
        invariant
            n <= prefix@.len(),
            1 <= j <= stored@.len(),
            key@ =~= prefix@.subrange(0, n as int) + stored@.subrange(1, j as int),
        decreases stored@.len() - j,
    {
        key.push(stored[j]);
        j = j + 1;
    }
    key
}

/// Tells how a stored key stands to `key`, without writing the stored key out.
pub fn prefix_compare(stored: &[u8], key: &[u8], prefix: &[u8]) -> (standing: Standing)
    requires
        decodable(prefix@, stored@),
    ensures
        stands(decoded(prefix@, stored@), key@, standing),
{
    let ghost whole = decoded(prefix@, stored@);
    let n: usize = stored[0] as usize;
    let mut i: usize = 0;
    while i < n
        invariant
            i <= n <= prefix@.len(),
            i <= key@.len(),
            n == stored@[0],
            decodable(prefix@, stored@),
            whole == decoded(prefix@, stored@),
            forall|j: int| 0 <= j < i ==> whole[j] == key@[j],
        decreases n - i,
    {
        if i >= key.len() {
            proof {
                reveal(key_lt);
                assert(parts_at(key@, whole, i as int));
            }
            return Standing::After;
        }
        if prefix[i] != key[i] {
            proof {
                reveal(key_lt);
                if prefix@[i as int] < key@[i as int] {
                    assert(parts_at(whole, key@, i as int));
                } else {
                    assert(parts_at(key@, whole, i as int));
                }
            }
            return if prefix[i] < key[i] {
                Standing::Before
            } else {
                Standing::After
            };
        }
        i = i + 1;
    }
    let mut j: usize = 1;
    while j < stored.len()
        invariant
            n <= prefix@.len(),
            n == stored@[0],
            1 <= j <= stored@.len(),
            i <= key@.len(),
            i == n + (j - 1),
            decodable(prefix@, stored@),
            whole == decoded(prefix@, stored@),
            forall|m: int| 0 <= m < i ==> whole[m] == key@[m],
        decreases stored@.len() - j,
    {
        if i >= key.len() {
            proof {
                reveal(key_lt);
                assert(parts_at(key@, whole, i as int));
            }
            return Standing::After;
        }
        assert(whole[i as int] == stored@[j as int]);
        if stored[j] != key[i] {
            proof {
                reveal(key_lt);
                if stored@[j as int] < key@[i as int] {
                    assert(parts_at(whole, key@, i as int));
                } else {
                    assert(parts_at(key@, whole, i as int));
                }
            }
            return if stored[j] < key[i] {
                Standing::Before
            } else {
                Standing::After
            };
        }
        i = i + 1;
        j = j + 1;
    }
    proof {
        reveal(key_lt);
        if i < key@.len() {
            assert(parts_at(whole, key@, i as int));
        } else {
            assert(whole =~= key@);
        }
    }
    if i < key.len() {
        Standing::Before
    } else {
        Standing::Same
    }
}

} // verus!
