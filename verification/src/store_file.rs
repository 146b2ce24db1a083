//! The bytes in which a backing store is written out.
//!
//! The rows are written one after the other, each as its key, the length of
//! its value, and the value. Rows that come later are appended. The root
//! records are written one after the other, each as height, fork, a flag
//! that says whether there is a root, and the root's hash.

use vstd::prelude::*;
use vstd::bytes::lemma_auto_spec_u64_to_from_le_bytes;
use vstd::bytes::spec_u64_to_le_bytes;
use crate::delta_db::DbRow;
use crate::epoch_roots::EpochId;
use crate::epoch_roots::EpochRoot;
use crate::node::copy_range;
use crate::node::push_all;
use crate::node::push_u64;
use crate::node::read_u64;
use crate::node::read_u64_spec;
use crate::node::MerkleHash;

verus! {

/// What a row holds.
pub type RowView = (MerkleHash, Seq<u8>);

impl View for DbRow {
    type V = RowView;

    open spec fn view(&self) -> RowView {
        (self.key, self.value@)
    }
}

pub open spec fn rows_view(rows: Seq<DbRow>) -> Seq<RowView> {
    rows.map_values(|r: DbRow| r@)
}

/// The bytes of one row.
pub open spec fn row_bytes(row: RowView) -> Seq<u8> {
    spec_u64_to_le_bytes(row.0) + spec_u64_to_le_bytes(row.1.len() as u64) + row.1
}

/// The bytes of rows, row by row.
pub open spec fn rows_bytes(rows: Seq<RowView>) -> Seq<u8>
    decreases rows.len(),
{
    if rows.len() == 0 {
        Seq::empty()
    } else {
        row_bytes(rows[0]) + rows_bytes(rows.skip(1))
    }
}

/// The rows that bytes hold, if they are the bytes of rows.
pub open spec fn parse_rows(b: Seq<u8>) -> Option<Seq<RowView>>
    decreases b.len(),
{
    if b.len() == 0 {
        Some(Seq::empty())
    } else if b.len() < 16 || 16 + read_u64_spec(b, 8) > b.len() {
        None
    } else {
        let n = read_u64_spec(b, 8) as int;
        match parse_rows(b.skip(16 + n)) {
            Some(rest) => Some(seq![(read_u64_spec(b, 0), b.subrange(16, 16 + n))] + rest),
            None => None,
        }
    }
}

/// The values of rows are short enough for their length to be written.
pub open spec fn rows_fit(rows: Seq<RowView>) -> bool {
    forall|i: int| 0 <= i < rows.len() ==> (#[trigger] rows[i]).1.len() <= u64::MAX
}

/// The bytes of rows with one more row at the end.
pub proof fn lemma_rows_bytes_push(rows: Seq<RowView>, row: RowView)
    ensures
        rows_bytes(rows.push(row)) == rows_bytes(rows) + row_bytes(row),
    decreases rows.len(),
{
    if rows.len() == 0 {
        assert(rows.push(row).skip(1) =~= Seq::<RowView>::empty());
        assert(rows_bytes(Seq::<RowView>::empty()) =~= Seq::<u8>::empty());
        assert(rows.push(row)[0] == row);
        assert(rows_bytes(rows.push(row)) =~= row_bytes(row) + rows_bytes(rows.push(row).skip(1)));
        assert(rows_bytes(rows.push(row)) =~= rows_bytes(rows) + row_bytes(row));
    } else {
        assert(rows.push(row).skip(1) =~= rows.skip(1).push(row));
        lemma_rows_bytes_push(rows.skip(1), row);
        assert(rows_bytes(rows.push(row)) =~= rows_bytes(rows) + row_bytes(row));
    }
}

/// Reading the bytes of a row and of what follows gives the row and what
/// the bytes that follow hold.
pub proof fn lemma_parse_row(row: RowView, rest: Seq<u8>)
    requires
        row.1.len() <= u64::MAX,
    ensures
        parse_rows(row_bytes(row) + rest) == match parse_rows(rest) {
            Some(rows) => Some(seq![row] + rows),
            None => None,
        },
{
    lemma_auto_spec_u64_to_from_le_bytes();
    let b = row_bytes(row) + rest;
    let n = row.1.len() as int;
    assert(b.subrange(0, 8) =~= spec_u64_to_le_bytes(row.0));
    assert(b.subrange(8, 16) =~= spec_u64_to_le_bytes(row.1.len() as u64));
    assert(read_u64_spec(b, 0) == row.0);
    assert(read_u64_spec(b, 8) == n);
    assert(b.subrange(16, 16 + n) =~= row.1);
    assert(b.skip(16 + n) =~= rest);
}

/// Reading the bytes of rows gives the rows back.
pub proof fn law_rows_round_trip(rows: Seq<RowView>)
    requires
        rows_fit(rows),
    ensures
        parse_rows(rows_bytes(rows)) == Some(rows),
    decreases rows.len(),
{
    if rows.len() > 0 {
        law_rows_round_trip(rows.skip(1));
        lemma_parse_row(rows[0], rows_bytes(rows.skip(1)));
        assert(seq![rows[0]] + rows.skip(1) =~= rows);
    }
}

/// Rows that are appended to the bytes of rows are read behind them.
pub proof fn law_rows_appended(first: Seq<RowView>, then: Seq<RowView>)
    requires
        rows_fit(first),
        rows_fit(then),
    ensures
        rows_bytes(first) + rows_bytes(then) == rows_bytes(first + then),
        parse_rows(rows_bytes(first) + rows_bytes(then)) == Some(first + then),
    decreases then.len(),
{
    if then.len() == 0 {
        assert(first + then =~= first);
        assert(rows_bytes(first) + rows_bytes(then) =~= rows_bytes(first));
    } else {
        lemma_rows_bytes_push(first, then[0]);
        law_rows_appended(first.push(then[0]), then.skip(1));
        assert(first.push(then[0]) + then.skip(1) =~= first + then);
        assert(rows_bytes(first) + rows_bytes(then) =~= rows_bytes(first.push(then[0])) + rows_bytes(
            then.skip(1),
        ));
    }
    assert forall|i: int| 0 <= i < (first + then).len() implies (#[trigger] (first + then)[i]).1.len()
        <= u64::MAX by {
        if i < first.len() {
            assert((first + then)[i] == first[i]);
        } else {
            assert((first + then)[i] == then[i - first.len()]);
        }
    }
    law_rows_round_trip(first + then);
}

/// Writes rows out.
pub fn encode_rows(rows: &Vec<DbRow>) -> (out: Vec<u8>)
    ensures
        out@ == rows_bytes(rows_view(rows@)),
        rows_fit(rows_view(rows@)),
{
    let mut out: Vec<u8> = Vec::new();
    let mut i: usize = 0;
    assert(rows_view(rows@.subrange(0, 0)) =~= Seq::<RowView>::empty());
    while i < rows.len()
        invariant
            i <= rows@.len(),
            out@ == rows_bytes(rows_view(rows@.subrange(0, i as int))),
        decreases rows@.len() - i,
    {
        let row = &rows[i];
        proof {
            lemma_rows_bytes_push(rows_view(rows@.subrange(0, i as int)), row@);
            assert(rows_view(rows@.subrange(0, i + 1)) =~= rows_view(
                rows@.subrange(0, i as int),
            ).push(row@));
        }
        let ghost before = out@;
        push_u64(&mut out, row.key);
        push_u64(&mut out, row.value.len() as u64);
        push_all(&mut out, &row.value);
        assert(out@ =~= before + row_bytes(row@));
        i = i + 1;
    }
    assert(rows@.subrange(0, i as int) =~= rows@);
    assert forall|j: int| 0 <= j < rows_view(rows@).len() implies (#[trigger] rows_view(
        rows@,
    )[j]).1.len() <= u64::MAX by {
        assert(rows_view(rows@)[j].1 == rows@[j].value@);
        assert(rows@[j].value.len() <= usize::MAX);
    }
    out
}

/// Reads rows; `None` where the bytes are not those of rows.
pub fn decode_rows(bytes: &Vec<u8>) -> (r: Option<Vec<DbRow>>)
    ensures
        match r {
            Some(rows) => parse_rows(bytes@) == Some(rows_view(rows@)),
            None => parse_rows(bytes@).is_none(),
        },
{
    let mut rows: Vec<DbRow> = Vec::new();
    let mut pos: usize = 0;
    let len = bytes.len();
    assert(bytes@.skip(0) =~= bytes@);
    assert(rows_view(rows@) =~= Seq::<RowView>::empty());
    while pos < len
        invariant
            pos <= len,
            len == bytes@.len(),
            parse_rows(bytes@) == match parse_rows(bytes@.skip(pos as int)) {
                Some(rest) => Some(rows_view(rows@) + rest),
                None => None,
            },
        decreases len - pos,
    {
        let ghost here = bytes@.skip(pos as int);
        if len - pos < 16 {
            return None;
        }
        let key = read_u64(bytes, pos);
        let n64 = read_u64(bytes, pos + 8);
        proof {
            assert(here.subrange(0, 8) =~= bytes@.subrange(pos as int, pos + 8));
            assert(here.subrange(8, 16) =~= bytes@.subrange(pos + 8, pos + 16));
        }
        if n64 > (len - pos - 16) as u64 {
            return None;
        }
        let n = n64 as usize;
        let value = copy_range(bytes, pos + 16, pos + 16 + n);
        let ghost before = rows_view(rows@);
        let row = DbRow { key, value };
        let ghost added = row@;
        rows.push(row);
        proof {
            assert(here.subrange(16, 16 + n) =~= bytes@.subrange(pos + 16, pos + 16 + n));
            assert(here.skip(16 + n) =~= bytes@.skip(pos + 16 + n));
            assert(rows_view(rows@) =~= before.push(added));
            match parse_rows(bytes@.skip(pos + 16 + n)) {
                Some(rest) => {
                    assert(before + (seq![added] + rest) =~= before.push(added) + rest);
                },
                None => {},
            }
        }
        pos = pos + 16 + n;
    }
    proof {
        assert(bytes@.skip(pos as int).len() == 0);
        assert(rows_view(rows@) + Seq::<RowView>::empty() =~= rows_view(rows@));
    }
    Some(rows)
}

/// The bytes of one root record.
pub open spec fn record_bytes(record: EpochRoot) -> Seq<u8> {
    spec_u64_to_le_bytes(record.epoch.height) + spec_u64_to_le_bytes(record.epoch.fork) + (
    match record.root {
        Some(h) => seq![1u8] + spec_u64_to_le_bytes(h),
        None => seq![0u8] + spec_u64_to_le_bytes(0),
    })
}

/// The bytes that a root record takes.
pub const RECORD_LEN: usize = 25;

/// The bytes of root records, record by record.
pub open spec fn records_bytes(records: Seq<EpochRoot>) -> Seq<u8>
    decreases records.len(),
{
    if records.len() == 0 {
        Seq::empty()
    } else {
        records_bytes(records.drop_last()) + record_bytes(records.last())
    }
}

/// The record that the 25 bytes from `at` on hold, if they hold one.
pub open spec fn parse_record(b: Seq<u8>, at: int) -> Option<EpochRoot> {
    let epoch = EpochId { height: read_u64_spec(b, at), fork: read_u64_spec(b, at + 8) };
    if b[at + 16] == 1 {
        Some(EpochRoot { epoch, root: Some(read_u64_spec(b, at + 17)) })
    } else if b[at + 16] == 0 && read_u64_spec(b, at + 17) == 0 {
        Some(EpochRoot { epoch, root: None })
    } else {
        None
    }
}

/// The root records that bytes hold, if they are the bytes of root records.
pub open spec fn parse_records(b: Seq<u8>) -> Option<Seq<EpochRoot>> {
    if b.len() % 25 != 0 || exists|i: int|
        0 <= i < b.len() / 25 && (#[trigger] parse_record(b, 25 * i)).is_none() {
        None
    } else {
        Some(Seq::new((b.len() / 25) as nat, |i: int| parse_record(b, 25 * i).unwrap()))
    }
}

/// The bytes of root records are 25 for each, and record `i` stands at `25 * i`.
pub proof fn lemma_records_bytes(records: Seq<EpochRoot>)
    ensures
        records_bytes(records).len() == 25 * records.len(),
        forall|i: int|
            0 <= i < records.len() ==> #[trigger] parse_record(records_bytes(records), 25 * i)
                == Some(records[i]),
    decreases records.len(),
{
    lemma_auto_spec_u64_to_from_le_bytes();
    if records.len() > 0 {
        let front = records.drop_last();
        let last = records.last();
        lemma_records_bytes(front);
        let b = records_bytes(records);
        let fb = records_bytes(front);
        let lb = record_bytes(last);
        assert(lb.len() == 25);
        assert forall|i: int| 0 <= i < records.len() implies #[trigger] parse_record(b, 25 * i)
            == Some(records[i]) by {
            let at = 25 * i;
            if i < front.len() {
                assert(parse_record(fb, at) == Some(front[i]));
                assert(b.subrange(at, at + 8) =~= fb.subrange(at, at + 8));
                assert(b.subrange(at + 8, at + 16) =~= fb.subrange(at + 8, at + 16));
                assert(b.subrange(at + 17, at + 25) =~= fb.subrange(at + 17, at + 25));
                assert(b[at + 16] == fb[at + 16]);
            } else {
                assert(b.subrange(at, at + 8) =~= spec_u64_to_le_bytes(last.epoch.height));
                assert(b.subrange(at + 8, at + 16) =~= spec_u64_to_le_bytes(last.epoch.fork));
                match last.root {
                    Some(h) => {
                        assert(b[at + 16] == 1);
                        assert(b.subrange(at + 17, at + 25) =~= spec_u64_to_le_bytes(h));
                    },
                    None => {
                        assert(b[at + 16] == 0);
                        assert(b.subrange(at + 17, at + 25) =~= spec_u64_to_le_bytes(0));
                    },
                }
            }
        }
    }
}

/// Reading the bytes of root records gives the records back.
pub proof fn law_records_round_trip(records: Seq<EpochRoot>)
    ensures
        parse_records(records_bytes(records)) == Some(records),
{
    lemma_records_bytes(records);
    let b = records_bytes(records);
    assert(b.len() / 25 == records.len());
    assert(Seq::new((b.len() / 25) as nat, |i: int| parse_record(b, 25 * i).unwrap()) =~= records);
}

/// Writes root records out.
pub fn encode_records(records: &Vec<EpochRoot>) -> (out: Vec<u8>)
    ensures
        out@ == records_bytes(records@),
{
    let mut out: Vec<u8> = Vec::new();
    let mut i: usize = 0;
    assert(records@.subrange(0, 0) =~= Seq::<EpochRoot>::empty());
    while i < records.len()
        invariant
            i <= records@.len(),
            out@ == records_bytes(records@.subrange(0, i as int)),
        decreases records@.len() - i,
    {
        let record = records[i];
        proof {
            let longer = records@.subrange(0, i + 1);
            assert(longer.drop_last() =~= records@.subrange(0, i as int));
            assert(longer.last() == record);
        }
        let ghost before = out@;
        push_u64(&mut out, record.epoch.height);
        push_u64(&mut out, record.epoch.fork);
        match record.root {
            Some(h) => {
                out.push(1);
                push_u64(&mut out, h);
            },
            None => {
                out.push(0);
                push_u64(&mut out, 0);
            },
        }
        assert(out@ =~= before + record_bytes(record));
        i = i + 1;
    }
    assert(records@.subrange(0, i as int) =~= records@);
    out
}

/// Reads root records; `None` where the bytes are not those of root records.
pub fn decode_records(bytes: &Vec<u8>) -> (r: Option<Vec<EpochRoot>>)
    ensures
        match r {
            Some(records) => parse_records(bytes@) == Some(records@),
            None => parse_records(bytes@).is_none(),
        },
{
    let len = bytes.len();
    if len % RECORD_LEN != 0 {
        return None;
    }
    let count = len / RECORD_LEN;
    let mut records: Vec<EpochRoot> = Vec::new();
    let mut i: usize = 0;
    while i < count
        invariant
            i <= count,
            len == bytes@.len(),
            len == 25 * count,
            records@.len() == i,
            forall|j: int| 0 <= j < i ==> #[trigger] parse_record(bytes@, 25 * j) == Some(records@[j]),
        decreases count - i,
    {
        let at = RECORD_LEN * i;
        let height = read_u64(bytes, at);
        let fork = read_u64(bytes, at + 8);
        let flag = bytes[at + 16];
        let hash = read_u64(bytes, at + 17);
        let epoch = EpochId::new(height, fork);
        assert(epoch == EpochId { height, fork });
        if flag == 1 {
            records.push(EpochRoot { epoch, root: Some(hash) });
        } else if flag == 0 && hash == 0 {
            records.push(EpochRoot { epoch, root: None });
        } else {
            assert(parse_record(bytes@, 25 * i).is_none());
            return None;
        }
        i = i + 1;
    }
    proof {
        assert(bytes@.len() / 25 == count);
        assert(records@ =~= Seq::new(
            (bytes@.len() / 25) as nat,
            |j: int| parse_record(bytes@, 25 * j).unwrap(),
        ));
    }
    Some(records)
}

} // verus!
