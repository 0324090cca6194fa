//! What a journal says of the writes that were put down in it, whole or cut short.

use crate::journal::{
    complete, lemma_append_record, lemma_record_extends, lemma_written, record_at, recovered,
    written, written_all, RecordView,
};
use crate::laws::lemma_replayed_first;
use crate::tree::Tree;
use vstd::prelude::*;

verus! {

/// A journal in which nothing has been put down recovers nothing; one more write that
/// is put down at its end is made after all others.
pub proof fn law_journal_adds_up(journal: Seq<u8>, record: RecordView)
    requires
        complete(journal, 0),
        record.fits(),
    ensures
        recovered(Seq::empty()) == Map::<Seq<u8>, Seq<u8>>::empty(),
        complete(Seq::empty(), 0),
        complete(journal + written(record), 0),
        recovered(journal + written(record)) == match record.value {
            Some(value) => recovered(journal).insert(record.key, value),
            None => recovered(journal).remove(record.key),
        },
{
    lemma_append_record(journal, 0, Map::empty(), record);
}

/// The journal of a tree, replayed, gives all that the tree holds, and nothing else.
pub proof fn law_journal_holds_the_tree<M>(tree: &Tree<M>, key: Seq<u8>)
    requires
        tree.wf(),
        !tree.is_removed(),
    ensures
        recovered(tree.journal()).contains_key(key) == tree@.contains_key(key),
        tree@.contains_key(key) ==> recovered(tree.journal())[key] == tree@[key],
        complete(tree.journal(), 0),
{
}

/// A write of which the end is missing is left out, however much of it is there, and
/// all that went before it is recovered.
pub proof fn law_torn_write_is_left_out(journal: Seq<u8>, record: RecordView, n: int)
    requires
        complete(journal, 0),
        record.fits(),
        0 <= n < written(record).len(),
    ensures
        recovered(journal + written(record).take(n)) == recovered(journal),
{
    let torn = written(record).take(n);
    let from = journal.len() as int;
    lemma_replayed_first(journal, torn, 0, Map::empty());
    if record_at(journal + torn, from) is Some {
        let lost = written(record).skip(n);
        lemma_record_extends(journal + torn, lost, from);
        lemma_written(journal, record);
        assert(journal + torn + lost =~= journal + written(record));
    }
}

proof fn lemma_all_complete(records: Seq<RecordView>)
    requires
        forall|i: int| #![trigger records[i]] 0 <= i < records.len() ==> records[i].fits(),
    ensures
        complete(written_all(records), 0),
    decreases records.len(),
{
    if records.len() > 0 {
        let fewer = records.drop_last();
        assert forall|i: int| #![trigger fewer[i]] 0 <= i < fewer.len() implies fewer[i].fits() by {
            assert(fewer[i] == records[i]);
        }
        lemma_all_complete(fewer);
        assert(records.last() == records[records.len() - 1]);
        lemma_append_record(written_all(fewer), 0, Map::empty(), records.last());
    }
}

/// Leaving the last record out leaves out what it made of its key.
proof fn lemma_without_last(records: Seq<RecordView>)
    requires
        records.len() > 0,
        forall|i: int| #![trigger records[i]] 0 <= i < records.len() ==> records[i].fits(),
    ensures
        forall|i: int|
            #![trigger records.drop_last()[i]]
            0 <= i < records.len() - 1 ==> records.drop_last()[i] == records[i],
        recovered(written_all(records)) == match records.last().value {
            Some(value) => recovered(written_all(records.drop_last())).insert(
                records.last().key,
                value,
            ),
            None => recovered(written_all(records.drop_last())).remove(records.last().key),
        },
{
    let fewer = records.drop_last();
    lemma_all_complete(fewer);
    assert(records.last() == records[records.len() - 1]);
    law_journal_adds_up(written_all(fewer), records.last());
}

/// A key to which nothing has been written is not recovered.
pub proof fn law_unwritten_key_is_absent(records: Seq<RecordView>, key: Seq<u8>)
    requires
        forall|i: int| #![trigger records[i]] 0 <= i < records.len() ==> records[i].fits(),
        forall|i: int| #![trigger records[i]] 0 <= i < records.len() ==> records[i].key != key,
    ensures
        !recovered(written_all(records)).contains_key(key),
    decreases records.len(),
{
    if records.len() > 0 {
        lemma_without_last(records);
        law_unwritten_key_is_absent(records.drop_last(), key);
        assert(records.last() == records[records.len() - 1]);
    }
}

/// What a journal recovers for a key is what the last write to that key made of it.
pub proof fn law_last_record_counts(records: Seq<RecordView>, n: int)
    requires
        forall|i: int| #![trigger records[i]] 0 <= i < records.len() ==> records[i].fits(),
        0 <= n < records.len(),
        forall|i: int|
            #![trigger records[i]]
            n < i < records.len() ==> records[i].key != records[n].key,
    ensures
        match records[n].value {
            Some(value) => {
                &&& recovered(written_all(records)).contains_key(records[n].key)
                &&& recovered(written_all(records))[records[n].key] == value
            },
            None => !recovered(written_all(records)).contains_key(records[n].key),
        },
    decreases records.len(),
{
    lemma_without_last(records);
    assert(records.last() == records[records.len() - 1]);
    if n < records.len() - 1 {
        let fewer = records.drop_last();
        assert(fewer[n] == records[n]);
        law_last_record_counts(fewer, n);
    }
}

/// The first `m` of `records` are those that `n` bytes hold in full.
pub open spec fn whole_in(records: Seq<RecordView>, n: int, m: int) -> bool {
    &&& 0 <= m <= records.len()
    &&& written_all(records.take(m)).len() <= n
    &&& m < records.len() ==> n < written_all(records.take(m + 1)).len()
}

/// A journal that has been cut off anywhere recovers the first writes, as many as it
/// holds in full, and nothing of the others.
pub proof fn law_cut_journal_keeps_the_first_writes(records: Seq<RecordView>, n: int)
    requires
        forall|i: int| #![trigger records[i]] 0 <= i < records.len() ==> records[i].fits(),
        0 <= n <= written_all(records).len(),
    ensures
        exists|m: int| #[trigger]
            whole_in(records, n, m) && recovered(written_all(records).take(n)) == recovered(
                written_all(records.take(m)),
            ),
    decreases records.len(),
{
    let journal = written_all(records);
    let len = records.len() as int;
    assert(records.take(len) =~= records);
    if n == journal.len() {
        assert(journal.take(n) =~= journal);
        assert(whole_in(records, n, len));
    } else if len > 0 {
        let fewer = records.drop_last();
        let first = written_all(fewer);
        assert(fewer =~= records.take(len - 1));
        assert forall|i: int| #![trigger fewer[i]] 0 <= i < fewer.len() implies fewer[i].fits() by {
            assert(fewer[i] == records[i]);
        }
        assert(records.last() == records[len - 1]);
        if n >= first.len() {
            let rest = n - first.len();
            lemma_all_complete(fewer);
            law_torn_write_is_left_out(first, records.last(), rest);
            assert(journal.take(n) =~= first + written(records.last()).take(rest));
            assert(whole_in(records, n, len - 1));
        } else {
            law_cut_journal_keeps_the_first_writes(fewer, n);
            let m = choose|m: int| #[trigger]
                whole_in(fewer, n, m) && recovered(first.take(n)) == recovered(
                    written_all(fewer.take(m)),
                );
            assert(journal.take(n) =~= first.take(n));
            assert(fewer.take(m) =~= records.take(m));
            if m < fewer.len() {
                assert(fewer.take(m + 1) =~= records.take(m + 1));
            } else {
                assert(fewer.take(m) =~= fewer);
            }
            assert(whole_in(records, n, m));
        }
    }
}

} // verus!
