//! Sorted tables on disk. A table is a row for each key, in key order, and a
//! footer with the number of rows. A row is the length of the key, the key, and
//! then either 1, the length of the value and the value, or 0 for a tombstone.
use vstd::prelude::*;
use vstd::slice::slice_subrange;

use crate::octets;
use crate::octets::{copy_bytes, get_le, put_le};
use crate::order;
use crate::sorted;
use crate::sorted::{Slot, SortedMap, Table};

verus! {

/// The row of a key and its slot.
pub open spec fn enc_row(row: (Seq<u8>, Slot)) -> Seq<u8> {
    octets::le_bytes(row.0.len(), 4) + row.0 + match row.1 {
        Some(value) => seq![1u8] + octets::le_bytes(value.len(), 4) + value,
        None => seq![0u8],
    }
}

/// Rows, one after the other.
pub open spec fn enc_rows(rows: Seq<(Seq<u8>, Slot)>) -> Seq<u8>
    decreases rows.len(),
{
    if rows.len() == 0 {
        Seq::empty()
    } else {
        enc_row(rows[0]) + enc_rows(rows.skip(1))
    }
}

/// A table file: the rows and their number.
pub open spec fn enc_table(rows: Seq<(Seq<u8>, Slot)>) -> Seq<u8> {
    enc_rows(rows) + octets::le_bytes(rows.len(), 8)
}

/// The row at the front of `data` with the bytes behind it, or nothing where
/// the row is cut off. Every mark but 1 stands for a tombstone.
pub open spec fn dec_row(data: Seq<u8>) -> Option<((Seq<u8>, Slot), Seq<u8>)> {
    let n = octets::le_value(data.take(4)) as int;
    let m = octets::le_value(data.subrange(5 + n, 9 + n)) as int;
    if data.len() < 4 || data.len() <= 4 + n {
        None
    } else if data[4 + n] != 1 {
        Some(((data.subrange(4, 4 + n), None), data.skip(5 + n)))
    } else if data.len() < 9 + n || data.len() < 9 + n + m {
        None
    } else {
        Some(
            (
                (data.subrange(4, 4 + n), Some(data.subrange(9 + n, 9 + n + m))),
                data.skip(9 + n + m),
            ),
        )
    }
}

/// The rows that bytes hold, up to one that is cut off.
pub open spec fn dec_rows(data: Seq<u8>) -> Seq<(Seq<u8>, Slot)>
    decreases data.len(),
{
    match dec_row(data) {
        None => Seq::empty(),
        Some((row, rest)) => if rest.len() < data.len() {
            seq![row] + dec_rows(rest)
        } else {
            Seq::empty()
        },
    }
}

/// What a table file holds. The footer is not read; a file too short for one
/// holds nothing.
pub open spec fn read_table(data: Seq<u8>) -> Table {
    if data.len() < 8 {
        Map::empty()
    } else {
        sorted::table_of(dec_rows(data.take(data.len() - 8)))
    }
}

/// The lengths of a row can be written down in four bytes each.
pub open spec fn row_fits(row: (Seq<u8>, Slot)) -> bool {
    &&& row.0.len() < octets::pow256(4)
    &&& row.1 matches Some(value) ==> value.len() < octets::pow256(4)
}

/// Every key and value of a map can be written to a table.
pub open spec fn table_fits(table: Table) -> bool {
    forall|key: Seq<u8>| #[trigger]
        table.contains_key(key) ==> row_fits((key, table[key]))
}

/// A row is read back, whatever follows it.
proof fn lemma_row(row: (Seq<u8>, Slot), rest: Seq<u8>)
    requires
        row_fits(row),
    ensures
        dec_row(enc_row(row) + rest) == Some((row, rest)),
        enc_row(row).len() >= 5,
{
    let data = enc_row(row) + rest;
    let key = row.0;
    let n = key.len() as int;
    octets::lemma_le_bytes_len(key.len(), 4);
    octets::lemma_le_value_of_bytes(key.len(), 4);
    assert(data.take(4) =~= octets::le_bytes(key.len(), 4));
    assert(data.subrange(4, 4 + n) =~= key);
    match row.1 {
        None => {
            assert(data[4 + n] == 0);
            assert(data.skip(5 + n) =~= rest);
        },
        Some(value) => {
            let m = value.len() as int;
            octets::lemma_le_bytes_len(value.len(), 4);
            octets::lemma_le_value_of_bytes(value.len(), 4);
            assert(data[4 + n] == 1);
            assert(data.subrange(5 + n, 9 + n) =~= octets::le_bytes(value.len(), 4));
            assert(data.subrange(9 + n, 9 + n + m) =~= value);
            assert(data.skip(9 + n + m) =~= rest);
        },
    }
}

/// Rows are read back.
proof fn lemma_rows(rows: Seq<(Seq<u8>, Slot)>)
    requires
        forall|i: int| 0 <= i < rows.len() ==> row_fits(#[trigger] rows[i]),
    ensures
        dec_rows(enc_rows(rows)) == rows,
    decreases rows.len(),
{
    if rows.len() == 0 {
        assert(dec_rows(enc_rows(rows)) =~= rows);
    } else {
        let tail = rows.skip(1);
        assert(row_fits(rows[0]));
        lemma_row(rows[0], enc_rows(tail));
        assert forall|i: int| 0 <= i < tail.len() implies row_fits(#[trigger] tail[i]) by {
            assert(row_fits(rows[i + 1]));
        }
        lemma_rows(tail);
        assert(seq![rows[0]] + tail =~= rows);
    }
}

/// What was written to a table is read from it.
pub proof fn law_table_roundtrip(rows: Seq<(Seq<u8>, Slot)>)
    requires
        sorted::ascending(rows),
        table_fits(sorted::table_of(rows)),
    ensures
        read_table(enc_table(rows)) == sorted::table_of(rows),
{
    let data = enc_table(rows);
    sorted::lemma_table_of_ascending(rows);
    assert forall|i: int| 0 <= i < rows.len() implies row_fits(#[trigger] rows[i]) by {
        assert(sorted::table_of(rows).contains_key(rows[i].0));
    }
    lemma_rows(rows);
    octets::lemma_le_bytes_len(rows.len(), 8);
    assert(data.take(data.len() - 8) =~= enc_rows(rows));
}

/// Where the parts of a row stand: the length of the key, the key, the mark of a
/// value or a tombstone and, behind the mark of a value, its length and the value.
pub proof fn law_row_layout(row: (Seq<u8>, Slot))
    requires
        row_fits(row),
    ensures
        ({
            let n = row.0.len() as int;
            let bytes = enc_row(row);
            &&& octets::le_value(bytes.take(4)) == n
            &&& bytes.subrange(4, 4 + n) == row.0
            &&& match row.1 {
                Some(value) => {
                    &&& bytes.len() == 9 + n + value.len()
                    &&& bytes[4 + n] == 1
                    &&& octets::le_value(bytes.subrange(5 + n, 9 + n)) == value.len()
                    &&& bytes.skip(9 + n) == value
                },
                None => bytes.len() == 5 + n && bytes[4 + n] == 0,
            }
        }),
{
    let n = row.0.len() as int;
    let bytes = enc_row(row);
    octets::lemma_le_bytes_len(row.0.len(), 4);
    octets::lemma_le_value_of_bytes(row.0.len(), 4);
    assert(bytes.take(4) =~= octets::le_bytes(row.0.len(), 4));
    assert(bytes.subrange(4, 4 + n) =~= row.0);
    if let Some(value) = row.1 {
        octets::lemma_le_bytes_len(value.len(), 4);
        octets::lemma_le_value_of_bytes(value.len(), 4);
        assert(bytes.subrange(5 + n, 9 + n) =~= octets::le_bytes(value.len(), 4));
        assert(bytes.skip(9 + n) =~= value);
    }
}

/// A table file is its rows, one behind the other, and their number in eight
/// bytes.
pub proof fn law_table_layout(rows: Seq<(Seq<u8>, Slot)>, row: (Seq<u8>, Slot))
    ensures
        enc_rows(Seq::empty()) == Seq::<u8>::empty(),
        enc_rows(rows.push(row)) == enc_rows(rows) + enc_row(row),
        enc_table(rows).len() == enc_rows(rows).len() + 8,
        enc_table(rows).take(enc_rows(rows).len() as int) == enc_rows(rows),
        rows.len() <= u64::MAX ==> octets::le_value(
            enc_table(rows).skip(enc_rows(rows).len() as int),
        ) == rows.len(),
    decreases rows.len(),
{
    let all = rows.push(row);
    if rows.len() == 0 {
        assert(all.skip(1) =~= Seq::empty());
        assert(enc_rows(all.skip(1)) =~= Seq::<u8>::empty());
        assert(enc_rows(all) =~= enc_rows(rows) + enc_row(row));
    } else {
        law_table_layout(rows.skip(1), row);
        assert(all.skip(1) =~= rows.skip(1).push(row));
        assert(enc_rows(all) =~= enc_rows(rows) + enc_row(row));
    }
    octets::lemma_pow256_values();
    octets::lemma_le_bytes_len(rows.len(), 8);
    assert(enc_table(rows).take(enc_rows(rows).len() as int) =~= enc_rows(rows));
    assert(enc_table(rows).skip(enc_rows(rows).len() as int) =~= octets::le_bytes(rows.len(), 8));
    if rows.len() <= u64::MAX {
        octets::lemma_le_value_of_bytes(rows.len(), 8);
    }
}

/// Any key and value below 4 GiB can be written to a table.
pub proof fn law_what_fits_into_a_table(key: Seq<u8>, value: Seq<u8>)
    requires
        key.len() < 0x1_0000_0000,
        value.len() < 0x1_0000_0000,
    ensures
        row_fits((key, Some(value))),
        row_fits((key, None)),
{
    octets::lemma_pow256_values();
}

/// A row whose mark is not that of a value is a tombstone, and the rows go on
/// right behind the mark.
pub proof fn law_other_mark_is_a_tombstone(key: Seq<u8>, mark: u8, rest: Seq<u8>)
    requires
        key.len() < 0x1_0000_0000,
        mark != 1,
    ensures
        dec_row(octets::le_bytes(key.len(), 4) + key + seq![mark] + rest) == Some(
            ((key, None::<Seq<u8>>), rest),
        ),
{
    let n = key.len() as int;
    let data = octets::le_bytes(key.len(), 4) + key + seq![mark] + rest;
    octets::lemma_pow256_values();
    octets::lemma_le_bytes_len(key.len(), 4);
    octets::lemma_le_value_of_bytes(key.len(), 4);
    assert(data.take(4) =~= octets::le_bytes(key.len(), 4));
    assert(data.subrange(4, 4 + n) =~= key);
    assert(data.skip(5 + n) =~= rest);
}

/// The number behind the rows is not read: a file with any eight bytes there
/// holds its rows, and one that is too short for them holds nothing.
pub proof fn law_footer_is_not_read(rows: Seq<(Seq<u8>, Slot)>, footer: Seq<u8>)
    requires
        forall|i: int| 0 <= i < rows.len() ==> row_fits(#[trigger] rows[i]),
    ensures
        footer.len() == 8 ==> read_table(enc_rows(rows) + footer) == sorted::table_of(rows),
        footer.len() < 8 ==> read_table(footer) == Map::<Seq<u8>, Slot>::empty(),
{
    if footer.len() == 8 {
        let file = enc_rows(rows) + footer;
        lemma_rows(rows);
        assert(file.take(file.len() - 8) =~= enc_rows(rows));
    }
}

/// A row that is cut off is not read.
proof fn lemma_torn_row(row: (Seq<u8>, Slot), kept: int)
    requires
        row_fits(row),
        0 <= kept < enc_row(row).len(),
    ensures
        dec_row(enc_row(row).take(kept)) is None,
{
    let whole = enc_row(row);
    let data = whole.take(kept);
    let n = row.0.len() as int;
    octets::lemma_le_bytes_len(row.0.len(), 4);
    octets::lemma_le_value_of_bytes(row.0.len(), 4);
    if kept >= 4 {
        assert(data.take(4) =~= octets::le_bytes(row.0.len(), 4));
        if kept > 4 + n {
            if let Some(value) = row.1 {
                octets::lemma_le_bytes_len(value.len(), 4);
                octets::lemma_le_value_of_bytes(value.len(), 4);
                assert(data[4 + n] == 1);
                if kept >= 9 + n {
                    assert(data.subrange(5 + n, 9 + n) =~= octets::le_bytes(value.len(), 4));
                }
            }
        }
    }
}

/// Of rows that are cut off, the first ones are read.
proof fn lemma_torn_rows(rows: Seq<(Seq<u8>, Slot)>, kept: int) -> (left: int)
    requires
        forall|i: int| 0 <= i < rows.len() ==> row_fits(#[trigger] rows[i]),
        0 <= kept <= enc_rows(rows).len(),
    ensures
        0 <= left <= rows.len(),
        dec_rows(enc_rows(rows).take(kept)) == rows.take(left),
    decreases rows.len(),
{
    let data = enc_rows(rows).take(kept);
    if rows.len() == 0 {
        assert(data =~= Seq::empty());
        assert(dec_rows(data) =~= rows.take(0));
        0
    } else {
        let first = enc_row(rows[0]);
        let tail = rows.skip(1);
        assert(row_fits(rows[0]));
        if kept < first.len() {
            assert(data =~= first.take(kept));
            lemma_torn_row(rows[0], kept);
            assert(dec_rows(data) =~= rows.take(0));
            0
        } else {
            assert forall|i: int| 0 <= i < tail.len() implies row_fits(#[trigger] tail[i]) by {
                assert(row_fits(rows[i + 1]));
            }
            let rest = enc_rows(tail).take(kept - first.len());
            let left = lemma_torn_rows(tail, kept - first.len());
            assert(data =~= first + rest);
            lemma_row(rows[0], rest);
            assert(seq![rows[0]] + tail.take(left) =~= rows.take(left + 1));
            left + 1
        }
    }
}

/// A table holds nothing but what another one holds.
pub open spec fn part_of(part: Table, whole: Table) -> bool {
    forall|key: Seq<u8>| #[trigger]
        part.contains_key(key) ==> whole.contains_key(key) && part[key] == whole[key]
}

/// Of a table file that was cut off at any point, nothing is read that the whole
/// file does not hold.
pub proof fn law_torn_table_is_part(rows: Seq<(Seq<u8>, Slot)>, kept: int)
    requires
        sorted::ascending(rows),
        table_fits(sorted::table_of(rows)),
        0 <= kept <= enc_table(rows).len(),
    ensures
        part_of(read_table(enc_table(rows).take(kept)), sorted::table_of(rows)),
{
    let data = enc_table(rows).take(kept);
    if kept >= 8 {
        octets::lemma_le_bytes_len(rows.len(), 8);
        sorted::lemma_table_of_ascending(rows);
        assert forall|i: int| 0 <= i < rows.len() implies row_fits(#[trigger] rows[i]) by {
            assert(sorted::table_of(rows).contains_key(rows[i].0));
        }
        let left = lemma_torn_rows(rows, kept - 8);
        assert(data.take(kept - 8) =~= enc_rows(rows).take(kept - 8));
        let first = rows.take(left);
        assert forall|i: int, j: int| 0 <= i < j < first.len() implies order::precedes(
            (#[trigger] first[i]).0,
            (#[trigger] first[j]).0,
        ) by {
            assert(first[i] == rows[i] && first[j] == rows[j]);
        }
        sorted::lemma_table_of_ascending(first);
        assert forall|key: Seq<u8>| #[trigger]
            sorted::table_of(first).contains_key(key) implies sorted::table_of(
            rows,
        ).contains_key(key) && sorted::table_of(first)[key] == sorted::table_of(rows)[key] by {
            let i = choose|i: int| 0 <= i < first.len() && (#[trigger] first[i]).0 == key;
            assert(first[i] == rows[i]);
        }
    }
}

/// Sorted tables on disk.
pub struct SSTable;

impl SSTable {
    /// The file of a sorted map.
    pub fn write(data: &SortedMap) -> (bytes: Vec<u8>)
        ensures
            bytes@ == enc_table(data.entries()),
            sorted::ascending(data.entries()),
            data@ == sorted::table_of(data.entries()),
    {
        let entries = data.as_entries();
        let ghost rows = data.entries();
        let mut bytes: Vec<u8> = Vec::new();
        let mut i: usize = 0;
        assert(rows.skip(0) =~= rows);
        assert(bytes@ + enc_rows(rows) =~= enc_rows(rows));
        while i < entries.len()
            invariant
                i <= entries@.len() == rows.len(),
                rows == sorted::entries_view(entries@),
                bytes@ + enc_rows(rows.skip(i as int)) == enc_rows(rows),
            decreases entries@.len() - i,
        {
            let ghost before = bytes@;
            let ghost left = rows.skip(i as int);
            let key = &entries[i].0;
            put_le(&mut bytes, key.len() as u64, 4);
            bytes.extend_from_slice(key);
            match &entries[i].1 {
                Some(value) => {
                    bytes.push(1);
                    put_le(&mut bytes, value.len() as u64, 4);
                    bytes.extend_from_slice(value);
                },
                None => {
                    bytes.push(0);
                },
            }
            assert(left[0] == rows[i as int]);
            assert(bytes@ =~= before + enc_row(left[0]));
            assert(left.skip(1) =~= rows.skip(i + 1));
            i = i + 1;
            assert(bytes@ + enc_rows(rows.skip(i as int)) =~= before + enc_rows(left));
        }
        assert(bytes@ + enc_rows(rows.skip(i as int)) =~= bytes@);
        put_le(&mut bytes, entries.len() as u64, 8);
        bytes
    }

    /// What a table file holds.
    pub fn read(data: &[u8]) -> (table: SortedMap)
        ensures
            table@ == read_table(data@),
    {
        let mut table = SortedMap::new();
        if data.len() < 8 {
            return table;
        }
        let body = slice_subrange(data, 0, data.len() - 8);
        assert(body@ =~= data@.take(data@.len() - 8));
        let ghost mut done: Seq<(Seq<u8>, Slot)> = Seq::empty();
        let mut pos: usize = 0;
        assert(body@.skip(0) =~= body@);
        assert(done + dec_rows(body@) =~= dec_rows(body@));
        loop
            invariant
                pos <= body@.len(),
                table@ == sorted::table_of(done),
                done + dec_rows(body@.skip(pos as int)) == dec_rows(body@),
            ensures
                table@ == sorted::table_of(dec_rows(body@)),
            decreases body@.len() - pos,
        {
            let ghost left = body@.skip(pos as int);
            match read_row(body, pos) {
                None => {
                    assert(done + dec_rows(left) =~= done);
                    break;
                },
                Some((key, slot, next)) => {
                    proof {
                        let row = (key@, sorted::slot_view(slot));
                        let rest = dec_rows(body@.skip(next as int));
                        assert(dec_rows(left) == seq![row] + rest);
                        assert(done + (seq![row] + rest) =~= done.push(row) + rest);
                        assert(done.push(row).drop_last() =~= done);
                        done = done.push(row);
                    }
                    table.insert(key, slot);
                    pos = next;
                },
            }
        }
        table
    }
}

/// Reads the row at a position: its key, its slot and where the next row stands.
fn read_row(data: &[u8], pos: usize) -> (row: Option<(Vec<u8>, Option<Vec<u8>>, usize)>)
    requires
        pos <= data@.len(),
    ensures
        match row {
            Some((key, slot, next)) => pos < next <= data@.len() && dec_row(data@.skip(pos as int))
                == Some(((key@, sorted::slot_view(slot)), data@.skip(next as int))),
            None => dec_row(data@.skip(pos as int)) is None,
        },
{
    let ghost left = data@.skip(pos as int);
    let total: usize = data.len();
    if total - pos < 4 {
        return None;
    }
    let n: usize = get_le(data, pos, 4) as usize;
    proof {
        assert(left.take(4) =~= data@.subrange(pos as int, pos + 4));
        octets::lemma_le_bytes_of_value(left.take(4));
        octets::lemma_pow256_values();
    }
    if total - pos - 4 <= n {
        return None;
    }
    let key = copy_bytes(slice_subrange(data, pos + 4, pos + 4 + n));
    assert(key@ =~= left.subrange(4, 4 + n));
    let mark_at: usize = pos + 4 + n;
    assert(data@[mark_at as int] == left[4 + n]);
    let next: usize = mark_at + 1;
    if data[mark_at] != 1 {
        assert(left.skip(5 + n) =~= data@.skip(next as int));
        return Some((key, None, next));
    }
    if total - next < 4 {
        return None;
    }
    let m: usize = get_le(data, next, 4) as usize;
    proof {
        assert(left.subrange(5 + n, 9 + n) =~= data@.subrange(next as int, next + 4));
        octets::lemma_le_bytes_of_value(left.subrange(5 + n, 9 + n));
    }
    if total - next - 4 < m {
        return None;
    }
    let value = copy_bytes(slice_subrange(data, next + 4, next + 4 + m));
    assert(value@ =~= left.subrange(9 + n, 9 + n + m));
    assert(left.skip(9 + n + m) =~= data@.skip(next + 4 + m));
    Some((key, Some(value), next + 4 + m))
}

} // verus!
