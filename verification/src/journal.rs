//! The journal of writes: what has to reach stable storage for the writes to
//! outlive a crash, and how the contents of the tree are read back from it.

use crate::key::copy_bytes;
use vstd::bytes::{
    lemma_auto_spec_u64_to_from_le_bytes, spec_u64_from_le_bytes, spec_u64_to_le_bytes,
    u64_from_le_bytes, u64_to_le_bytes,
};
use vstd::prelude::*;

verus! {

/// A write: a key with its new value, or with none where the key was taken out.
#[verifier::ext_equal]
pub struct RecordView {
    pub key: Seq<u8>,
    pub value: Option<Seq<u8>>,
}

impl RecordView {
    /// Whether the lengths of the record can be written down.
    pub open spec fn fits(self) -> bool {
        self.key.len() <= u64::MAX && (self.value matches Some(value) ==> value.len() <= u64::MAX)
    }

    /// The map after the write.
    pub open spec fn applied(self, map: Map<Seq<u8>, Seq<u8>>) -> Map<Seq<u8>, Seq<u8>> {
        match self.value {
            Some(value) => map.insert(self.key, value),
            None => map.remove(self.key),
        }
    }
}

/// Bytes with their length before them.
pub open spec fn framed(bytes: Seq<u8>) -> Seq<u8> {
    spec_u64_to_le_bytes(bytes.len() as u64) + bytes
}

/// A record as it is written down.
pub open spec fn written(record: RecordView) -> Seq<u8> {
    match record.value {
        Some(value) => seq![1u8] + framed(record.key) + framed(value),
        None => seq![0u8] + framed(record.key),
    }
}

/// Records as they are written down, one after another.
pub open spec fn written_all(records: Seq<RecordView>) -> Seq<u8>
    decreases records.len(),
{
    if records.len() == 0 {
        Seq::empty()
    } else {
        written_all(records.drop_last()) + written(records.last())
    }
}

/// The framed bytes that start at `from`, and where they end.
pub open spec fn frame_at(journal: Seq<u8>, from: int) -> Option<(Seq<u8>, int)> {
    if from + 8 <= journal.len() {
        let n = spec_u64_from_le_bytes(journal.subrange(from, from + 8));
        if from + 8 + n <= journal.len() {
            Some((journal.subrange(from + 8, from + 8 + n), from + 8 + n))
        } else {
            None
        }
    } else {
        None
    }
}

/// The record that starts at `from`, and where it ends.
pub open spec fn record_at(journal: Seq<u8>, from: int) -> Option<(RecordView, int)> {
    if from < journal.len() {
        match frame_at(journal, from + 1) {
            Some((key, end)) => {
                if journal[from] == 0 {
                    Some((RecordView { key, value: None }, end))
                } else if journal[from] == 1 {
                    match frame_at(journal, end) {
                        Some((value, end)) => Some((RecordView { key, value: Some(value) }, end)),
                        None => None,
                    }
                } else {
                    None
                }
            },
            None => None,
        }
    } else {
        None
    }
}

/// The map after all writes from `from` on that the journal holds in full.
pub open spec fn replayed(
    journal: Seq<u8>,
    from: int,
    map: Map<Seq<u8>, Seq<u8>>,
) -> Map<Seq<u8>, Seq<u8>>
    decreases journal.len() - from,
{
    match record_at(journal, from) {
        Some((record, end)) => {
            if 0 <= from < end {
                replayed(journal, end, record.applied(map))
            } else {
                map
            }
        },
        None => map,
    }
}

/// Whether the journal, from `from` on, holds whole records only.
pub open spec fn complete(journal: Seq<u8>, from: int) -> bool
    decreases journal.len() - from,
{
    from == journal.len() || match record_at(journal, from) {
        Some((_, end)) => 0 <= from < end && complete(journal, end),
        None => false,
    }
}

/// What the journal of a tree that started empty recovers.
pub open spec fn recovered(journal: Seq<u8>) -> Map<Seq<u8>, Seq<u8>> {
    replayed(journal, 0, Map::empty())
}

proof fn lemma_frame_extends(journal: Seq<u8>, more: Seq<u8>, from: int)
    requires
        0 <= from,
        frame_at(journal, from) is Some,
    ensures
        frame_at(journal + more, from) == frame_at(journal, from),
        from < (frame_at(journal, from)->0).1 <= journal.len(),
{
    assert((journal + more).subrange(from, from + 8) =~= journal.subrange(from, from + 8));
    let n = spec_u64_from_le_bytes(journal.subrange(from, from + 8));
    assert((journal + more).subrange(from + 8, from + 8 + n) =~= journal.subrange(
        from + 8,
        from + 8 + n,
    ));
}

pub proof fn lemma_record_extends(journal: Seq<u8>, more: Seq<u8>, from: int)
    requires
        0 <= from,
        record_at(journal, from) is Some,
    ensures
        record_at(journal + more, from) == record_at(journal, from),
        from < (record_at(journal, from)->0).1 <= journal.len(),
{
    lemma_frame_extends(journal, more, from + 1);
    assert((journal + more)[from] == journal[from]);
    let end = (frame_at(journal, from + 1)->0).1;
    if journal[from] == 1 {
        lemma_frame_extends(journal, more, end);
    }
}

/// Framed bytes are read back.
proof fn lemma_framed(before: Seq<u8>, bytes: Seq<u8>, after: Seq<u8>)
    requires
        bytes.len() <= u64::MAX,
    ensures
        framed(bytes).len() == 8 + bytes.len(),
        frame_at(before + framed(bytes) + after, before.len() as int) == Some(
            (bytes, (before.len() + 8 + bytes.len()) as int),
        ),
{
    lemma_auto_spec_u64_to_from_le_bytes();
    let journal = before + framed(bytes) + after;
    let from = before.len() as int;
    let head = spec_u64_to_le_bytes(bytes.len() as u64);
    assert(head.len() == 8);
    assert(journal.subrange(from, from + 8) =~= head);
    assert(journal.subrange(from + 8, from + 8 + bytes.len()) =~= bytes);
}

/// A record is read back as it was written.
pub proof fn lemma_written(before: Seq<u8>, record: RecordView)
    requires
        record.fits(),
    ensures
        record_at(before + written(record), before.len() as int) == Some(
            (record, (before + written(record)).len() as int),
        ),
        written(record).len() > 0,
{
    let from = before.len() as int;
    let journal = before + written(record);
    match record.value {
        Some(value) => {
            let first = before + seq![1u8];
            lemma_framed(first, record.key, framed(value));
            assert(journal =~= first + framed(record.key) + framed(value));
            lemma_framed(first + framed(record.key), value, Seq::empty());
            assert(journal =~= first + framed(record.key) + framed(value) + Seq::<u8>::empty());
            assert(journal[from] == 1u8);
        },
        None => {
            let first = before + seq![0u8];
            lemma_framed(first, record.key, Seq::empty());
            assert(journal =~= first + framed(record.key) + Seq::<u8>::empty());
            assert(journal[from] == 0u8);
        },
    }
}

/// Writing one more record down adds one more write.
pub proof fn lemma_append_record(
    journal: Seq<u8>,
    from: int,
    map: Map<Seq<u8>, Seq<u8>>,
    record: RecordView,
)
    requires
        0 <= from <= journal.len(),
        complete(journal, from),
        record.fits(),
    ensures
        complete(journal + written(record), from),
        replayed(journal + written(record), from, map) == record.applied(
            replayed(journal, from, map),
        ),
    decreases journal.len() - from,
{
    let whole = journal + written(record);
    if from == journal.len() {
        lemma_written(journal, record);
        assert(record_at(journal, from) is None);
        assert(complete(whole, whole.len() as int));
        assert(record_at(whole, whole.len() as int) is None);
        let after = record.applied(map);
        assert(replayed(whole, whole.len() as int, after) == after);
    } else {
        lemma_record_extends(journal, written(record), from);
        let (first, end) = record_at(journal, from)->0;
        lemma_append_record(journal, end, first.applied(map), record);
    }
}

proof fn lemma_frame_is_framed(journal: Seq<u8>, from: int)
    requires
        0 <= from,
        frame_at(journal, from) is Some,
    ensures
        ({
            let (bytes, end) = frame_at(journal, from)->0;
            &&& from < end <= journal.len()
            &&& bytes.len() <= u64::MAX
            &&& journal.subrange(from, end) == framed(bytes)
        }),
{
    lemma_auto_spec_u64_to_from_le_bytes();
    let (bytes, end) = frame_at(journal, from)->0;
    let head = journal.subrange(from, from + 8);
    let n = spec_u64_from_le_bytes(head);
    assert(bytes.len() == n);
    assert(spec_u64_to_le_bytes(n) == head);
    assert(journal.subrange(from, end) =~= framed(bytes));
}

/// A record that can be read is written as it stands.
pub proof fn lemma_read(journal: Seq<u8>, from: int)
    requires
        0 <= from,
        record_at(journal, from) is Some,
    ensures
        ({
            let (record, end) = record_at(journal, from)->0;
            &&& from < end <= journal.len()
            &&& record.fits()
            &&& journal.take(end) == journal.take(from) + written(record)
        }),
{
    let (record, end) = record_at(journal, from)->0;
    lemma_frame_is_framed(journal, from + 1);
    let middle = (frame_at(journal, from + 1)->0).1;
    if journal[from] == 1 {
        lemma_frame_is_framed(journal, middle);
        assert(journal.take(end) =~= journal.take(from) + (seq![1u8] + journal.subrange(
            from + 1,
            middle,
        ) + journal.subrange(middle, end)));
    } else {
        assert(journal.take(end) =~= journal.take(from) + (seq![0u8] + journal.subrange(
            from + 1,
            middle,
        )));
    }
}

/// A write to be put down in the journal.
pub struct Record {
    pub key: Vec<u8>,
    pub value: Option<Vec<u8>>,
}

impl View for Record {
    type V = RecordView;

    open spec fn view(&self) -> RecordView {
        RecordView {
            key: self.key@,
            value: match self.value {
                Some(value) => Some(value@),
                None => None,
            },
        }
    }
}

fn append_bytes(journal: &mut Vec<u8>, bytes: &[u8])
    ensures
        final(journal)@ == old(journal)@ + bytes@,
{
    let ghost before = journal@;
    let mut i: usize = 0;
    assert(before + bytes@.subrange(0, 0) =~= before);
    while i < bytes.len()
        invariant
            i <= bytes@.len(),
            journal@ == before + bytes@.subrange(0, i as int),
        decreases bytes@.len() - i,
    {
        journal.push(bytes[i]);
        assert(journal@ =~= before + bytes@.subrange(0, i + 1));
        i = i + 1;
    }
    assert(bytes@.subrange(0, bytes@.len() as int) =~= bytes@);
}

fn append_framed(journal: &mut Vec<u8>, bytes: &[u8])
    ensures
        final(journal)@ == old(journal)@ + framed(bytes@),
{
    let head = u64_to_le_bytes(bytes.len() as u64);
    let ghost before = journal@;
    append_bytes(journal, head.as_slice());
    append_bytes(journal, bytes);
    assert(journal@ =~= before + framed(bytes@));
}

/// Writes a record down at the end of a journal.
pub fn append_record(journal: &mut Vec<u8>, key: &[u8], value: Option<&[u8]>)
    ensures
        final(journal)@ == old(journal)@ + written(
            (RecordView {
                key: key@,
                value: match value {
                    Some(v) => Some(v@),
                    None => None,
                },
            }),
        ),
        (RecordView {
            key: key@,
            value: match value {
                Some(v) => Some(v@),
                None => None,
            },
        }).fits(),
{
    let ghost before = journal@;
    assert(key.len() == key@.len());
    match value {
        Some(v) => {
            assert(v.len() == v@.len());
            journal.push(1);
            append_framed(journal, key);
            append_framed(journal, v);
            assert(journal@ =~= before + (seq![1u8] + framed(key@) + framed(v@)));
        },
        None => {
            journal.push(0);
            append_framed(journal, key);
            assert(journal@ =~= before + (seq![0u8] + framed(key@)));
        },
    }
}

fn read_framed(journal: &[u8], from: usize) -> (r: Option<(Vec<u8>, usize)>)
    requires
        from <= journal@.len(),
    ensures
        match r {
            Some((bytes, end)) => frame_at(journal@, from as int) == Some((bytes@, end as int))
                && from < end <= journal@.len(),
            None => frame_at(journal@, from as int) is None,
        },
{
    assert(journal.len() == journal@.len());
    if journal.len() - from < 8 {
        return None;
    }
    let head = vstd::slice::slice_subrange(journal, from, from + 8);
    let n: u64 = u64_from_le_bytes(head);
    let rest: usize = journal.len() - from - 8;
    if n > rest as u64 {
        return None;
    }
    let start: usize = from + 8;
    let end: usize = start + n as usize;
    let bytes = copy_bytes(vstd::slice::slice_subrange(journal, start, end));
    Some((bytes, end))
}

/// Reads the record that starts at `from`, if the journal holds it in full.
pub fn read_record(journal: &[u8], from: usize) -> (r: Option<(Record, usize)>)
    requires
        from <= journal@.len(),
    ensures
        match r {
            Some((record, end)) => record_at(journal@, from as int) == Some((record@, end as int))
                && from < end <= journal@.len(),
            None => record_at(journal@, from as int) is None,
        },
{
    assert(journal.len() == journal@.len());
    if from >= journal.len() {
        return None;
    }
    match read_framed(journal, from + 1) {
        Some((key, end)) => {
            if journal[from] == 0 {
                Some((Record { key, value: None }, end))
            } else if journal[from] == 1 {
                match read_framed(journal, end) {
                    Some((value, end)) => Some((Record { key, value: Some(value) }, end)),
                    None => None,
                }
            } else {
                None
            }
        },
        None => None,
    }
}

} // verus!
