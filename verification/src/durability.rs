//! What the store promises: reads see the latest write, and flushing,
//! compaction, a crash and recovery change no read.
use vstd::prelude::*;

use crate::naming;
use crate::octets;
use crate::order;
use crate::sorted;
use crate::sorted::{Slot, Table};
use crate::sstable;
use crate::storage;
use crate::storage::StoreView;
use crate::wal;
use crate::wal::EntryView;

verus! {

/// A write puts its value under its key and a delete a tombstone; every other key
/// stays as it is.
pub proof fn law_entry_takes_effect(table: Table, key: Seq<u8>, value: Seq<u8>, other: Seq<u8>)
    ensures
        ({
            let written = storage::apply_entry(table, EntryView::Put { key, value });
            let deleted = storage::apply_entry(table, EntryView::Delete { key });
            &&& written.contains_key(key) && written[key] == Some(value)
            &&& deleted.contains_key(key) && deleted[key] is None
            &&& other != key ==> {
                &&& written.contains_key(other) == table.contains_key(other)
                &&& deleted.contains_key(other) == table.contains_key(other)
                &&& written[other] == table[other]
                &&& deleted[other] == table[other]
            }
        }),
{
}

/// The key that an entry writes.
pub open spec fn key_of(entry: EntryView) -> Seq<u8> {
    match entry {
        EntryView::Put { key, value } => key,
        EntryView::Delete { key } => key,
    }
}

/// Of all entries for a key the last one counts: where it is a write its value is
/// read, whole, and where it is a delete nothing is.
pub proof fn law_last_entry_counts(
    before: Seq<EntryView>,
    entry: EntryView,
    after: Seq<EntryView>,
    tables: Seq<Table>,
)
    requires
        forall|i: int| 0 <= i < after.len() ==> key_of(#[trigger] after[i]) != key_of(entry),
    ensures
        ({
            let all = before + seq![entry] + after;
            &&& storage::applied(all).contains_key(key_of(entry))
            &&& storage::lookup(storage::applied(all), tables, key_of(entry)) == match entry {
                EntryView::Put { key, value } => Some(value),
                EntryView::Delete { key } => None,
            }
        }),
    decreases after.len(),
{
    let all = before + seq![entry] + after;
    if after.len() == 0 {
        assert(all.last() == entry);
    } else {
        assert(after[after.len() - 1] == after.last());
        assert(all.drop_last() =~= before + seq![entry] + after.drop_last());
        assert forall|i: int| 0 <= i < after.len() - 1 implies key_of(
            #[trigger] after.drop_last()[i],
        ) != key_of(entry) by {
            assert(after.drop_last()[i] == after[i]);
        }
        law_last_entry_counts(before, entry, after.drop_last(), tables);
        assert(all.last() == after.last());
    }
}

/// Entries know no key but those that they write.
pub proof fn law_unwritten_key_is_unknown(entries: Seq<EntryView>, key: Seq<u8>)
    requires
        forall|i: int| 0 <= i < entries.len() ==> key_of(#[trigger] entries[i]) != key,
    ensures
        !storage::applied(entries).contains_key(key),
    decreases entries.len(),
{
    if entries.len() > 0 {
        assert(entries[entries.len() - 1] == entries.last());
        assert forall|i: int| 0 <= i < entries.len() - 1 implies key_of(
            #[trigger] entries.drop_last()[i],
        ) != key by {
            assert(entries.drop_last()[i] == entries[i]);
        }
        law_unwritten_key_is_unknown(entries.drop_last(), key);
    }
}

/// The size of a table counts every byte of the keys and values that were written
/// to it, and the table is flushed from 4 MiB on.
pub proof fn law_sizes_add_up(entries: Seq<EntryView>, key: Seq<u8>, value: Seq<u8>)
    ensures
        storage::total_size(Seq::empty()) == 0,
        storage::total_size(entries.push(EntryView::Put { key, value })) == storage::total_size(
            entries,
        ) + key.len() + value.len(),
        storage::total_size(entries.push(EntryView::Delete { key })) == storage::total_size(entries)
            + key.len(),
        storage::entry_size(EntryView::Put { key, value }) == key.len() + value.len(),
        storage::entry_size(EntryView::Delete { key }) == key.len(),
        storage::MEMTABLE_FLUSH_THRESHOLD == 4 * 1024 * 1024,
{
    assert(entries.push(EntryView::Put { key, value }).drop_last() =~= entries);
    assert(entries.push(EntryView::Delete { key }).drop_last() =~= entries);
}

/// The first that knows a key answers: the in-memory table, or else the first of
/// the tables on disk. A key that none knows has no value.
pub proof fn law_first_table_answers(memory: Table, tables: Seq<Table>, key: Seq<u8>, at: int)
    requires
        0 <= at <= tables.len(),
        forall|i: int| 0 <= i < at ==> !(#[trigger] tables[i]).contains_key(key),
        at < tables.len() ==> tables[at].contains_key(key),
    ensures
        storage::lookup(memory, tables, key) == if memory.contains_key(key) {
            memory[key]
        } else if at < tables.len() {
            tables[at][key]
        } else {
            None
        },
    decreases tables.len(),
{
    if tables.len() > 0 && !memory.contains_key(key) {
        let rest = tables.skip(1);
        if at > 0 {
            assert(!tables[0].contains_key(key));
            assert forall|i: int| 0 <= i < at - 1 implies !(#[trigger] rest[i]).contains_key(
                key,
            ) by {
                assert(rest[i] == tables[i + 1]);
            }
            if at < tables.len() {
                assert(rest[at - 1] == tables[at]);
            }
            law_first_table_answers(tables[0], rest, key, at - 1);
        } else {
            assert(storage::lookup(tables[0], rest, key) == tables[0][key]);
        }
    }
}

/// Of merged tables the last one that knows a key counts, and the merge knows no
/// key that none of them does.
pub proof fn law_last_merged_table_counts(tables: Seq<Table>, at: int, key: Seq<u8>)
    requires
        -1 <= at < tables.len(),
        at >= 0 ==> tables[at].contains_key(key),
        forall|i: int| at < i < tables.len() ==> !(#[trigger] tables[i]).contains_key(key),
    ensures
        storage::merged(tables).contains_key(key) <==> at >= 0,
        at >= 0 ==> storage::merged(tables)[key] == tables[at][key],
    decreases tables.len(),
{
    if tables.len() > 0 {
        let last = tables.len() - 1;
        if at < last {
            assert(!tables[last].contains_key(key));
            assert forall|i: int| at < i < last implies !(
            #[trigger] tables.drop_last()[i]).contains_key(key) by {
                assert(tables.drop_last()[i] == tables[i]);
            }
            law_last_merged_table_counts(tables.drop_last(), at, key);
        }
    }
}

/// The file of a table holds its rows in the order of their keys, each key once.
pub proof fn law_file_is_in_key_order(bytes: Seq<u8>, table: Table)
    requires
        storage::is_file_of(bytes, table),
    ensures
        exists|rows: Seq<(Seq<u8>, Slot)>| #[trigger]
            sstable::enc_table(rows) == bytes && sorted::table_of(rows) == table && (forall|
                i: int,
                j: int,
            |
                0 <= i < j < rows.len() ==> order::precedes(
                    (#[trigger] rows[i]).0,
                    (#[trigger] rows[j]).0,
                )),
{
    let rows = choose|rows: Seq<(Seq<u8>, Slot)>| #[trigger]
        sorted::ascending(rows) && sorted::table_of(rows) == table && bytes == sstable::enc_table(
            rows,
        );
    assert(sstable::enc_table(rows) == bytes);
}

/// Table files hold what is read from each of them, in their order.
pub proof fn law_tables_are_read_one_by_one(files: Seq<Seq<u8>>, at: int)
    requires
        0 <= at < files.len(),
    ensures
        storage::tables_in(files).len() == files.len(),
        storage::tables_in(files)[at] == sstable::read_table(files[at]),
{
}

/// What each step does to a store, and that it leaves the rest alone: a write
/// that is in the log takes effect and is counted, with its size; a flush takes
/// all of memory out under the next number, and its table then stands in front;
/// an emptied log holds nothing; a merge takes the next number, and its table
/// then stands alone.
pub proof fn law_store_steps(store: StoreView, entry: EntryView, id: nat)
    ensures
        storage::after_logged(store, entry) == (StoreView {
            memory: storage::apply_entry(store.memory, entry),
            size: store.size + storage::entry_size(entry),
            logged: store.logged + 1,
            tables: store.tables,
            next_id: store.next_id,
        }),
        storage::after_drained(store) == (StoreView {
            memory: Map::empty(),
            size: 0,
            logged: store.logged,
            tables: store.tables,
            next_id: store.next_id + 1,
        }),
        storage::after_flushed(store, id) == (StoreView {
            memory: store.memory,
            size: store.size,
            logged: store.logged,
            tables: seq![naming::table_name(id)] + store.tables,
            next_id: store.next_id,
        }),
        storage::after_truncated(store) == (StoreView {
            memory: store.memory,
            size: store.size,
            logged: 0,
            tables: store.tables,
            next_id: store.next_id,
        }),
        storage::after_merge(store) == (StoreView {
            memory: store.memory,
            size: store.size,
            logged: store.logged,
            tables: store.tables,
            next_id: store.next_id + 1,
        }),
        storage::after_compacted(store, id) == (StoreView {
            memory: store.memory,
            size: store.size,
            logged: store.logged,
            tables: seq![naming::table_name(id)],
            next_id: store.next_id,
        }),
{
}

/// An opened store has in memory what its log holds, knows the tables beside the
/// log and no other files, the newest first, and gives the next table a number
/// that is one above the highest.
pub proof fn law_opened_store_has_it_all(store: StoreView, log: Seq<u8>, names: Seq<Seq<u8>>)
    requires
        storage::opened(store, log, names),
    ensures
        store.memory == storage::applied(wal::replayed(log)),
        store.size == storage::total_size(wal::replayed(log)),
        store.logged == 0,
        store.tables.to_multiset() == names.filter(
            |name: Seq<u8>| naming::is_table(name),
        ).to_multiset(),
        naming::newest_first(store.tables),
        store.next_id == naming::highest_id(naming::tables_among(names)) + 1,
        forall|i: int|
            0 <= i < store.tables.len() ==> (naming::table_id(#[trigger] store.tables[i]) matches Some(
                id,
            ) ==> id < store.next_id),
{
    naming::law_tables_are_picked_out(names);
}

/// A read that is handed every table it asks for returns what the first table
/// that knows the key holds, the newest table first.
pub proof fn law_read_is_lookup(memory: Table, files: Seq<Seq<u8>>, key: Seq<u8>)
    ensures
        storage::read_through(memory, files, key) == storage::lookup(
            memory,
            storage::tables_in(files),
            key,
        ),
{
    if !memory.contains_key(key) && files.len() > 0 {
        lemma_read_on(files, 0, key);
        assert(storage::tables_in(files).skip(0) =~= storage::tables_in(files));
    }
}

proof fn lemma_read_on(files: Seq<Seq<u8>>, at: nat, key: Seq<u8>)
    requires
        at < files.len(),
    ensures
        storage::read_on(files, at, key) == storage::lookup(
            storage::tables_in(files)[at as int],
            storage::tables_in(files).skip(at as int + 1),
            key,
        ),
    decreases files.len() - at,
{
    let tables = storage::tables_in(files);
    if !tables[at as int].contains_key(key) && at + 1 < files.len() {
        lemma_read_on(files, at + 1, key);
        assert(tables.skip(at as int + 1).skip(1) =~= tables.skip(at as int + 2));
        assert(tables.skip(at as int + 1)[0] == tables[at as int + 1]);
    }
}

/// A read of a key that was just written returns the value, and every other
/// key reads as before.
pub proof fn law_read_your_write(
    memory: Table,
    tables: Seq<Table>,
    key: Seq<u8>,
    value: Seq<u8>,
    other: Seq<u8>,
)
    requires
        other != key,
    ensures
        storage::lookup(
            storage::apply_entry(memory, EntryView::Put { key, value }),
            tables,
            key,
        ) == Some(value),
        storage::lookup(
            storage::apply_entry(memory, EntryView::Put { key, value }),
            tables,
            other,
        ) == storage::lookup(memory, tables, other),
{
}

/// A read of a key that was just deleted returns nothing, whatever the tables
/// hold, and every other key reads as before.
pub proof fn law_read_after_delete(memory: Table, tables: Seq<Table>, key: Seq<u8>, other: Seq<u8>)
    requires
        other != key,
    ensures
        storage::lookup(
            storage::apply_entry(memory, EntryView::Delete { key }),
            tables,
            key,
        ) is None,
        storage::lookup(
            storage::apply_entry(memory, EntryView::Delete { key }),
            tables,
            other,
        ) == storage::lookup(memory, tables, other),
{
}

/// A flushed table is read back from its file.
pub proof fn law_file_read_back(file: Seq<u8>, table: Table)
    requires
        storage::is_file_of(file, table),
        sstable::table_fits(table),
    ensures
        sstable::read_table(file) == table,
{
    let rows = choose|rows: Seq<(Seq<u8>, Slot)>| #[trigger]
        sorted::ascending(rows) && sorted::table_of(rows) == table && file == sstable::enc_table(
            rows,
        );
    sstable::law_table_roundtrip(rows);
}

/// A flush changes no read, neither once it is complete nor while the new
/// table is on disk and the log has not been emptied yet.
pub proof fn law_flush_keeps_reads(
    memory: Table,
    files: Seq<Seq<u8>>,
    file: Seq<u8>,
    key: Seq<u8>,
)
    requires
        storage::is_file_of(file, memory),
        sstable::table_fits(memory),
    ensures
        storage::lookup(Map::empty(), storage::tables_in(seq![file] + files), key)
            == storage::lookup(memory, storage::tables_in(files), key),
        storage::lookup(memory, storage::tables_in(seq![file] + files), key) == storage::lookup(
            memory,
            storage::tables_in(files),
            key,
        ),
{
    law_file_read_back(file, memory);
    let tables = storage::tables_in(seq![file] + files);
    assert(tables[0] == memory);
    assert(tables.skip(1) =~= storage::tables_in(files));
}

/// Whatever a table file holds can be written to a table again.
proof fn lemma_read_table_fits(file: Seq<u8>)
    ensures
        sstable::table_fits(sstable::read_table(file)),
{
    if file.len() >= 8 {
        lemma_rows_fit(file.take(file.len() - 8));
        lemma_table_of_fits(sstable::dec_rows(file.take(file.len() - 8)));
    }
}

proof fn lemma_rows_fit(data: Seq<u8>)
    ensures
        forall|i: int|
            0 <= i < sstable::dec_rows(data).len() ==> sstable::row_fits(
                #[trigger] sstable::dec_rows(data)[i],
            ),
    decreases data.len(),
{
    match sstable::dec_row(data) {
        None => {},
        Some((row, rest)) => {
            if rest.len() < data.len() {
                let n = octets::le_value(data.take(4)) as int;
                octets::lemma_le_bytes_of_value(data.take(4));
                if data[4 + n] == 1 {
                    octets::lemma_le_bytes_of_value(data.subrange(5 + n, 9 + n));
                }
                assert(sstable::row_fits(row));
                lemma_rows_fit(rest);
                let rows = sstable::dec_rows(data);
                assert forall|i: int| 0 <= i < rows.len() implies sstable::row_fits(
                    #[trigger] rows[i],
                ) by {
                    if i > 0 {
                        assert(rows[i] == sstable::dec_rows(rest)[i - 1]);
                    }
                }
            }
        },
    }
}

proof fn lemma_table_of_fits(rows: Seq<(Seq<u8>, Slot)>)
    requires
        forall|i: int| 0 <= i < rows.len() ==> sstable::row_fits(#[trigger] rows[i]),
    ensures
        sstable::table_fits(sorted::table_of(rows)),
    decreases rows.len(),
{
    if rows.len() > 0 {
        let front = rows.drop_last();
        assert forall|i: int| 0 <= i < front.len() implies sstable::row_fits(#[trigger] front[i]) by {
            assert(front[i] == rows[i]);
        }
        lemma_table_of_fits(front);
        assert(sstable::row_fits(rows[rows.len() - 1]));
    }
}

proof fn lemma_merged_fits(tables: Seq<Table>)
    requires
        forall|i: int| 0 <= i < tables.len() ==> sstable::table_fits(#[trigger] tables[i]),
    ensures
        sstable::table_fits(storage::merged(tables)),
    decreases tables.len(),
{
    if tables.len() > 0 {
        let front = tables.drop_last();
        assert forall|i: int| 0 <= i < front.len() implies sstable::table_fits(
            #[trigger] front[i],
        ) by {
            assert(front[i] == tables[i]);
        }
        lemma_merged_fits(front);
        assert(sstable::table_fits(tables[tables.len() - 1]));
    }
}

/// Merging tables from the oldest on finds for a key what looking from the
/// newest on finds.
proof fn lemma_merged_lookup(tables: Seq<Table>, key: Seq<u8>)
    ensures
        storage::lookup(Map::empty(), tables, key) == storage::lookup(
            storage::merged(tables.reverse()),
            Seq::empty(),
            key,
        ),
    decreases tables.len(),
{
    if tables.len() > 0 {
        let rest = tables.skip(1);
        lemma_merged_lookup(rest, key);
        assert(tables.reverse().drop_last() =~= rest.reverse());
        assert(tables.reverse().last() == tables[0]);
        if !tables[0].contains_key(key) && rest.len() > 0 {
            assert(storage::lookup(tables[0], rest, key) == storage::lookup(
                Map::empty(),
                rest,
                key,
            ));
        }
    }
}

/// Merging all tables into one changes no read.
pub proof fn law_compaction_keeps_reads(
    memory: Table,
    files: Seq<Seq<u8>>,
    file: Seq<u8>,
    key: Seq<u8>,
)
    requires
        storage::is_file_of(
            file,
            sorted::live(storage::merged(storage::tables_in(files.reverse()))),
        ),
    ensures
        storage::lookup(memory, storage::tables_in(seq![file]), key) == storage::lookup(
            memory,
            storage::tables_in(files),
            key,
        ),
{
    let tables = storage::tables_in(files);
    let oldest_first = storage::tables_in(files.reverse());
    let whole = storage::merged(oldest_first);
    assert(oldest_first =~= tables.reverse());
    lemma_merge_fits(files);
    law_file_read_back(file, sorted::live(whole));
    lemma_merged_lookup(tables, key);
    let one = storage::tables_in(seq![file]);
    assert(one[0] == sorted::live(whole));
    assert(one.skip(1) =~= Seq::empty());
    if !memory.contains_key(key) {
        assert(storage::lookup(memory, tables, key) == storage::lookup(Map::empty(), tables, key));
        assert(storage::lookup(memory, one, key) == storage::lookup(
            sorted::live(whole),
            Seq::empty(),
            key,
        ));
    }
}

/// A table made of entries that fit into the log can be flushed.
pub proof fn law_logged_entries_fit(entries: Seq<EntryView>)
    requires
        forall|i: int| 0 <= i < entries.len() ==> wal::entry_fits(#[trigger] entries[i]),
    ensures
        sstable::table_fits(storage::applied(entries)),
    decreases entries.len(),
{
    if entries.len() > 0 {
        let front = entries.drop_last();
        assert forall|i: int| 0 <= i < front.len() implies wal::entry_fits(#[trigger] front[i]) by {
            assert(front[i] == entries[i]);
        }
        law_logged_entries_fit(front);
        assert(wal::entry_fits(entries[entries.len() - 1]));
        octets::lemma_pow256_values();
        match entries.last() {
            EntryView::Put { key, value } => {
                octets::lemma_le_bytes_len(key.len(), 8);
                octets::lemma_le_bytes_len(value.len(), 8);
            },
            EntryView::Delete { key } => {
                octets::lemma_le_bytes_len(key.len(), 8);
            },
        }
    }
}

/// After a crash the in-memory table is rebuilt from the log as it was, also
/// where a last record was cut off while it was being written.
pub proof fn law_crash_recovery(entries: Seq<EntryView>, torn: EntryView, kept: int)
    requires
        forall|i: int| 0 <= i < entries.len() ==> wal::entry_fits(#[trigger] entries[i]),
        wal::entry_fits(torn),
        0 <= kept < wal::record(torn).len(),
    ensures
        storage::applied(wal::replayed(wal::log_of(entries) + wal::record(torn).take(kept)))
            == storage::applied(entries),
        storage::applied(wal::replayed(wal::log_of(entries))) == storage::applied(entries),
{
    wal::law_crash_keeps_appended(entries, torn, kept);
    wal::law_crash_keeps_appended(entries, torn, 0);
    assert(wal::log_of(entries) + wal::record(torn).take(0) =~= wal::log_of(entries));
}

/// A record whose payload was damaged is skipped, and every other entry of the
/// log survives.
pub proof fn law_corruption_skips_one(
    before: Seq<EntryView>,
    payload: Seq<u8>,
    crc: u32,
    after: Seq<EntryView>,
)
    requires
        forall|i: int| 0 <= i < before.len() ==> wal::entry_fits(#[trigger] before[i]),
        forall|i: int| 0 <= i < after.len() ==> wal::entry_fits(#[trigger] after[i]),
        payload.len() <= wal::MAX_PAYLOAD,
        crc != wal::crc32(payload),
    ensures
        wal::replayed(wal::log_of(before) + (wal::frame(payload, crc) + wal::log_of(after)))
            == before + after,
{
    wal::law_log_replays(before, wal::frame(payload, crc) + wal::log_of(after));
    wal::law_corrupt_record_skipped(payload, crc, wal::log_of(after));
    wal::law_log_replays(after, Seq::empty());
    assert(wal::log_of(after) + Seq::<u8>::empty() =~= wal::log_of(after));
    assert(wal::replayed(Seq::<u8>::empty()) =~= Seq::<EntryView>::empty());
    assert(after + Seq::<EntryView>::empty() =~= after);
}

/// Every key reads as the last entry of a history left it.
pub open spec fn reads_as(history: Seq<EntryView>, memory: Table, files: Seq<Seq<u8>>) -> bool {
    forall|key: Seq<u8>| #[trigger]
        storage::lookup(memory, storage::tables_in(files), key) == storage::lookup(
            storage::applied(history),
            Seq::empty(),
            key,
        )
}

/// A new store reads as an empty history.
pub proof fn law_history_starts_empty()
    ensures
        reads_as(Seq::empty(), Map::empty(), Seq::empty()),
{
    assert(storage::tables_in(Seq::empty()) =~= Seq::empty());
}

/// A write extends the history: every key reads as the longer history says.
pub proof fn law_history_write(
    history: Seq<EntryView>,
    memory: Table,
    files: Seq<Seq<u8>>,
    entry: EntryView,
)
    requires
        reads_as(history, memory, files),
    ensures
        reads_as(history.push(entry), storage::apply_entry(memory, entry), files),
{
    assert(history.push(entry).drop_last() =~= history);
    assert forall|key: Seq<u8>| #[trigger]
        storage::lookup(storage::apply_entry(memory, entry), storage::tables_in(files), key)
            == storage::lookup(storage::applied(history.push(entry)), Seq::empty(), key) by {
        assert(storage::lookup(memory, storage::tables_in(files), key) == storage::lookup(
            storage::applied(history),
            Seq::empty(),
            key,
        ));
    }
}

/// A flush leaves the history as it is.
pub proof fn law_history_flush(
    history: Seq<EntryView>,
    memory: Table,
    files: Seq<Seq<u8>>,
    file: Seq<u8>,
)
    requires
        reads_as(history, memory, files),
        storage::is_file_of(file, memory),
        sstable::table_fits(memory),
    ensures
        reads_as(history, Map::empty(), seq![file] + files),
{
    assert forall|key: Seq<u8>| #[trigger]
        storage::lookup(Map::empty(), storage::tables_in(seq![file] + files), key)
            == storage::lookup(storage::applied(history), Seq::empty(), key) by {
        law_flush_keeps_reads(memory, files, file, key);
        assert(storage::lookup(memory, storage::tables_in(files), key) == storage::lookup(
            storage::applied(history),
            Seq::empty(),
            key,
        ));
    }
}

/// A compaction leaves the history as it is.
pub proof fn law_history_compaction(
    history: Seq<EntryView>,
    memory: Table,
    files: Seq<Seq<u8>>,
    file: Seq<u8>,
)
    requires
        reads_as(history, memory, files),
        storage::is_file_of(
            file,
            sorted::live(storage::merged(storage::tables_in(files.reverse()))),
        ),
    ensures
        reads_as(history, memory, seq![file]),
{
    assert forall|key: Seq<u8>| #[trigger]
        storage::lookup(memory, storage::tables_in(seq![file]), key) == storage::lookup(
            storage::applied(history),
            Seq::empty(),
            key,
        ) by {
        law_compaction_keeps_reads(memory, files, file, key);
        assert(storage::lookup(memory, storage::tables_in(files), key) == storage::lookup(
            storage::applied(history),
            Seq::empty(),
            key,
        ));
    }
}

/// A merged table in front of any of the newest tables that went into it leaves
/// the history as it is.
pub proof fn law_history_merged_in_front(
    history: Seq<EntryView>,
    memory: Table,
    files: Seq<Seq<u8>>,
    file: Seq<u8>,
    left: int,
)
    requires
        reads_as(history, memory, files),
        storage::is_file_of(
            file,
            sorted::live(storage::merged(storage::tables_in(files.reverse()))),
        ),
        0 <= left <= files.len(),
    ensures
        reads_as(history, memory, seq![file] + files.take(left)),
{
    law_history_compaction(history, memory, files, file);
    let kept = files.take(left);
    assert forall|key: Seq<u8>| #[trigger]
        storage::lookup(memory, storage::tables_in(seq![file] + kept), key) == storage::lookup(
            storage::applied(history),
            Seq::empty(),
            key,
        ) by {
        let one = storage::tables_in(seq![file]);
        let all = storage::tables_in(seq![file] + kept);
        assert(storage::lookup(memory, one, key) == storage::lookup(
            storage::applied(history),
            Seq::empty(),
            key,
        ));
        assert(storage::lookup(memory, storage::tables_in(files), key) == storage::lookup(
            storage::applied(history),
            Seq::empty(),
            key,
        ));
        assert(all[0] == one[0]);
        assert(one.skip(1) =~= Seq::empty());
        assert(all.skip(1) =~= storage::tables_in(files).take(left));
        if !memory.contains_key(key) && !one[0].contains_key(key) {
            assert(storage::lookup(memory, one, key) == storage::lookup(
                one[0],
                one.skip(1),
                key,
            ));
            assert(storage::lookup(memory, one, key) is None);
            lemma_none_among_fewer(memory, storage::tables_in(files), left, key);
            assert(storage::lookup(memory, all, key) == storage::lookup(all[0], all.skip(1), key));
            lemma_first_silent(all[0], memory, all.skip(1), key);
        }
    }
}

/// What is left of the file of a table that was cut off holds nothing but what
/// the table holds.
pub proof fn law_torn_file_is_part(file: Seq<u8>, table: Table, kept: int)
    requires
        storage::is_file_of(file, table),
        sstable::table_fits(table),
        0 <= kept <= file.len(),
    ensures
        sstable::part_of(sstable::read_table(file.take(kept)), table),
{
    let rows = choose|rows: Seq<(Seq<u8>, Slot)>| #[trigger]
        sorted::ascending(rows) && sorted::table_of(rows) == table && file == sstable::enc_table(
            rows,
        );
    sstable::law_torn_table_is_part(rows, kept);
}

/// A part of the in-memory table in front of the tables leaves the history as it
/// is: the in-memory table answers first.
proof fn lemma_part_of_memory_in_front(
    history: Seq<EntryView>,
    memory: Table,
    files: Seq<Seq<u8>>,
    file: Seq<u8>,
)
    requires
        reads_as(history, memory, files),
        sstable::part_of(sstable::read_table(file), memory),
    ensures
        reads_as(history, memory, seq![file] + files),
{
    let all = storage::tables_in(seq![file] + files);
    assert forall|key: Seq<u8>| #[trigger]
        storage::lookup(memory, all, key) == storage::lookup(
            storage::applied(history),
            Seq::empty(),
            key,
        ) by {
        assert(storage::lookup(memory, storage::tables_in(files), key) == storage::lookup(
            storage::applied(history),
            Seq::empty(),
            key,
        ));
        assert(all[0] == sstable::read_table(file));
        assert(all.skip(1) =~= storage::tables_in(files));
        if !memory.contains_key(key) {
            assert(!all[0].contains_key(key));
            lemma_first_silent(all[0], memory, all.skip(1), key);
        }
    }
}

/// A part of the merged table in front of all the tables leaves the history as it
/// is: what it holds is what the tables say.
proof fn lemma_part_of_merge_in_front(
    history: Seq<EntryView>,
    memory: Table,
    files: Seq<Seq<u8>>,
    file: Seq<u8>,
    whole: Seq<u8>,
)
    requires
        reads_as(history, memory, files),
        storage::is_file_of(
            whole,
            sorted::live(storage::merged(storage::tables_in(files.reverse()))),
        ),
        sstable::part_of(
            sstable::read_table(file),
            sorted::live(storage::merged(storage::tables_in(files.reverse()))),
        ),
    ensures
        reads_as(history, memory, seq![file] + files),
{
    let live = sorted::live(storage::merged(storage::tables_in(files.reverse())));
    let all = storage::tables_in(seq![file] + files);
    let one = storage::tables_in(seq![whole]);
    assert forall|key: Seq<u8>| #[trigger]
        storage::lookup(memory, all, key) == storage::lookup(
            storage::applied(history),
            Seq::empty(),
            key,
        ) by {
        assert(storage::lookup(memory, storage::tables_in(files), key) == storage::lookup(
            storage::applied(history),
            Seq::empty(),
            key,
        ));
        assert(all[0] == sstable::read_table(file));
        assert(all.skip(1) =~= storage::tables_in(files));
        if !memory.contains_key(key) {
            if all[0].contains_key(key) {
                law_compaction_keeps_reads(memory, files, whole, key);
                lemma_merge_fits(files);
                law_file_read_back(whole, live);
                assert(one[0] == live);
                assert(storage::lookup(one[0], one.skip(1), key) == live[key]);
                assert(storage::lookup(memory, one, key) == live[key]);
                assert(storage::lookup(all[0], all.skip(1), key) == all[0][key]);
                assert(storage::lookup(memory, all, key) == all[0][key]);
            } else {
                lemma_first_silent(all[0], memory, all.skip(1), key);
                assert(storage::lookup(memory, all, key) == storage::lookup(
                    all[0],
                    all.skip(1),
                    key,
                ));
            }
        }
    }
}

/// The merge of tables that were read can be written to a table.
proof fn lemma_merge_fits(files: Seq<Seq<u8>>)
    ensures
        sstable::table_fits(
            sorted::live(storage::merged(storage::tables_in(files.reverse()))),
        ),
{
    let oldest_first = storage::tables_in(files.reverse());
    let whole = storage::merged(oldest_first);
    assert forall|i: int| 0 <= i < oldest_first.len() implies sstable::table_fits(
        #[trigger] oldest_first[i],
    ) by {
        lemma_read_table_fits(files.reverse()[i]);
    }
    lemma_merged_fits(oldest_first);
    assert forall|k: Seq<u8>| #[trigger] sorted::live(whole).contains_key(
        k,
    ) implies sstable::row_fits((k, sorted::live(whole)[k])) by {
        assert(whole.contains_key(k));
    }
}

/// A table that does not know a key does not matter for it.
proof fn lemma_first_silent(a: Table, b: Table, tables: Seq<Table>, key: Seq<u8>)
    requires
        !a.contains_key(key),
        !b.contains_key(key),
    ensures
        storage::lookup(a, tables, key) == storage::lookup(b, tables, key),
{
}

/// Where the tables hold nothing for a key, neither do the newest of them.
proof fn lemma_none_among_fewer(memory: Table, tables: Seq<Table>, left: int, key: Seq<u8>)
    requires
        storage::lookup(memory, tables, key) is None,
        0 <= left <= tables.len(),
    ensures
        storage::lookup(memory, tables.take(left), key) is None,
    decreases tables.len(),
{
    if !memory.contains_key(key) && left > 0 {
        lemma_none_among_fewer(tables[0], tables.skip(1), left - 1, key);
        assert(tables.take(left).skip(1) =~= tables.skip(1).take(left - 1));
    }
}

// ---------------------------------------------------------------------------
// Every state of a store
// ---------------------------------------------------------------------------

/// A store with its disk.
pub struct DiskView {
    /// Every write that took effect, in order.
    pub history: Seq<EntryView>,
    /// The store.
    pub store: StoreView,
    /// The bytes of the log.
    pub log: Seq<u8>,
    /// The files of the tables, by their names.
    pub files: Map<Seq<u8>, Seq<u8>>,
}

/// What the tables of a list hold, in the order of the list.
pub open spec fn contents(tables: Seq<Seq<u8>>, files: Map<Seq<u8>, Seq<u8>>) -> Seq<Seq<u8>> {
    tables.map_values(|name: Seq<u8>| files[name])
}

/// What can happen to a store.
pub enum StoreStep {
    /// A write is appended to the log and takes effect.
    Write(EntryView),
    /// The in-memory table is flushed to a file and the log is emptied.
    Flush(Seq<u8>),
    /// All tables are merged into one file and removed.
    Compact(Seq<u8>),
    /// The process ends and the store is opened again.
    Reopen(Opening),
    /// The process ends while it writes a record, of which the given number of
    /// bytes reaches the log, and the store is opened again.
    Crash { torn: EntryView, kept: int, opening: Opening },
    /// The process ends during a flush, when the given number of bytes of the
    /// file is written and the log is not emptied yet, and the store is opened
    /// again.
    CrashInFlush { file: Seq<u8>, kept: int, opening: Opening },
    /// The process ends during a compaction, when the given number of bytes of
    /// the file is written, and the store is opened again. Once the file is whole,
    /// only some of the merged tables may be left.
    CrashInCompaction { file: Seq<u8>, kept: int, left: int, opening: Opening },
}

/// How a store is opened again: the names that the directory holds, and the
/// store that comes of it.
pub struct Opening {
    pub names: Seq<Seq<u8>>,
    pub store: StoreView,
}

/// A log after a last write of bytes that was not completed, cut back to what is
/// in order.
pub open spec fn cut(log: Seq<u8>) -> Seq<u8> {
    log.take(wal::intact(log) as int)
}

/// A store can be opened on a directory: the names are those of the tables and
/// of files that are none, and the store is what opening makes of them.
pub open spec fn opens(opening: Opening, log: Seq<u8>, tables: Seq<Seq<u8>>) -> bool {
    &&& naming::tables_among(opening.names).to_multiset() == tables.to_multiset()
    &&& storage::opened(opening.store, log, opening.names)
}

/// The file of the merge of all tables.
pub open spec fn is_merge(file: Seq<u8>, disk: DiskView) -> bool {
    storage::is_file_of(
        file,
        sorted::live(
            storage::merged(
                storage::tables_in(contents(disk.store.tables, disk.files).reverse()),
            ),
        ),
    )
}

/// Whether a step can happen.
pub open spec fn can_happen(disk: DiskView, step: StoreStep) -> bool {
    let name = naming::table_name(disk.store.next_id);
    match step {
        StoreStep::Write(entry) => wal::entry_fits(entry),
        StoreStep::Flush(file) => disk.store.next_id < u64::MAX && storage::is_file_of(
            file,
            disk.store.memory,
        ),
        StoreStep::Compact(file) => disk.store.next_id < u64::MAX && is_merge(file, disk),
        StoreStep::Reopen(opening) => opens(opening, disk.log, disk.store.tables),
        StoreStep::Crash { torn, kept, opening } => {
            &&& wal::entry_fits(torn)
            &&& 0 <= kept < wal::record(torn).len()
            &&& opens(opening, disk.log + wal::record(torn).take(kept), disk.store.tables)
        },
        StoreStep::CrashInFlush { file, kept, opening } => {
            &&& disk.store.next_id < u64::MAX
            &&& storage::is_file_of(file, disk.store.memory)
            &&& 0 <= kept <= file.len()
            &&& opens(opening, disk.log, seq![name] + disk.store.tables)
        },
        StoreStep::CrashInCompaction { file, kept, left, opening } => {
            &&& disk.store.next_id < u64::MAX
            &&& is_merge(file, disk)
            &&& 0 <= kept <= file.len()
            &&& kept < file.len() ==> left == disk.store.tables.len()
            &&& 0 <= left <= disk.store.tables.len()
            &&& opens(opening, disk.log, seq![name] + disk.store.tables.take(left))
        },
    }
}

/// The store and its disk after a step: what the methods of the store say, and
/// what the caller does to the disk.
pub open spec fn after_step(disk: DiskView, step: StoreStep) -> DiskView {
    let id = disk.store.next_id;
    let name = naming::table_name(id);
    match step {
        StoreStep::Write(entry) => DiskView {
            history: disk.history.push(entry),
            store: storage::after_logged(disk.store, entry),
            log: disk.log + wal::record(entry),
            ..disk
        },
        StoreStep::Flush(file) => DiskView {
            store: storage::after_truncated(
                storage::after_flushed(storage::after_drained(disk.store), id),
            ),
            log: Seq::empty(),
            files: disk.files.insert(name, file),
            ..disk
        },
        StoreStep::Compact(file) => DiskView {
            store: storage::after_compacted(storage::after_merge(disk.store), id),
            files: disk.files.insert(name, file).restrict(set![name]),
            ..disk
        },
        StoreStep::Reopen(opening) => DiskView {
            store: opening.store,
            log: cut(disk.log),
            ..disk
        },
        StoreStep::Crash { torn, kept, opening } => DiskView {
            store: opening.store,
            log: cut(disk.log + wal::record(torn).take(kept)),
            ..disk
        },
        StoreStep::CrashInFlush { file, kept, opening } => DiskView {
            store: opening.store,
            log: cut(disk.log),
            files: disk.files.insert(name, file.take(kept)),
            ..disk
        },
        StoreStep::CrashInCompaction { file, kept, left, opening } => DiskView {
            store: opening.store,
            log: cut(disk.log),
            files: disk.files.insert(name, file.take(kept)).restrict(
                disk.store.tables.take(left).to_set().insert(name),
            ),
            ..disk
        },
    }
}

/// Bytes end a log in order: records that follow are replayed behind what it
/// holds.
pub open spec fn continues(log: Seq<u8>) -> bool {
    forall|rest: Seq<u8>| #[trigger]
        wal::replayed(log + rest) == wal::replayed(log) + wal::replayed(rest)
}

/// The in-memory table is what the log says, the tables are those on disk, the
/// newest first, and every key reads as the last write of the history left it.
pub open spec fn sound(disk: DiskView) -> bool {
    &&& disk.store.memory == storage::applied(wal::replayed(disk.log))
    &&& sstable::table_fits(disk.store.memory)
    &&& continues(disk.log)
    &&& storage::tables_ordered(disk.store.tables, disk.store.next_id)
    &&& disk.store.tables.no_duplicates()
    &&& forall|name: Seq<u8>| #[trigger]
        disk.files.contains_key(name) == disk.store.tables.contains(name)
    &&& reads_as(
        disk.history,
        disk.store.memory,
        contents(disk.store.tables, disk.files),
    )
}

/// The store after steps.
pub open spec fn after_steps(disk: DiskView, steps: Seq<StoreStep>) -> DiskView
    decreases steps.len(),
{
    if steps.len() == 0 {
        disk
    } else {
        after_step(after_steps(disk, steps.drop_last()), steps.last())
    }
}

/// Whether steps can happen one after the other.
pub open spec fn can_all_happen(disk: DiskView, steps: Seq<StoreStep>) -> bool
    decreases steps.len(),
{
    steps.len() == 0 || (can_all_happen(disk, steps.drop_last()) && can_happen(
        after_steps(disk, steps.drop_last()),
        steps.last(),
    ))
}

/// The file of a new table is none that is there.
proof fn lemma_new_name(tables: Seq<Seq<u8>>, id: u64)
    requires
        storage::tables_ordered(tables, id as nat),
        tables.no_duplicates(),
    ensures
        !tables.contains(naming::table_name(id as nat)),
        (seq![naming::table_name(id as nat)] + tables).no_duplicates(),
{
    let name = naming::table_name(id as nat);
    naming::law_table_name_roundtrip(id);
    if tables.contains(name) {
        let i = choose|i: int| 0 <= i < tables.len() && tables[i] == name;
        assert(naming::table_id(tables[i]) == Some(id as nat));
    }
    let all = seq![name] + tables;
    assert forall|i: int, j: int| 0 <= i < all.len() && 0 <= j < all.len() && i != j implies all[i]
        != all[j] by {
        if i == 0 {
            assert(tables.contains(tables[j - 1]));
        } else if j == 0 {
            assert(tables.contains(tables[i - 1]));
        }
    }
}

/// A cut log holds what the log held, and goes on in order.
proof fn lemma_cut(log: Seq<u8>)
    ensures
        wal::replayed(cut(log)) == wal::replayed(log),
        continues(cut(log)),
{
    wal::law_intact_part_continues(log, Seq::empty());
    assert(cut(log) + Seq::<u8>::empty() =~= cut(log));
    assert(wal::replayed(Seq::<u8>::empty()) =~= Seq::<EntryView>::empty());
    assert(wal::replayed(log) + Seq::<EntryView>::empty() =~= wal::replayed(log));
    assert forall|rest: Seq<u8>| #[trigger]
        wal::replayed(cut(log) + rest) == wal::replayed(cut(log)) + wal::replayed(rest) by {
        wal::law_intact_part_continues(log, rest);
    }
}

/// Whatever a crash or damage leaves at the end of a log, a write that is
/// appended once the log is cut back is replayed behind what the log holds.
pub proof fn law_write_behind_cut_log_is_durable(log: Seq<u8>, entry: EntryView)
    requires
        wal::entry_fits(entry),
    ensures
        wal::replayed(cut(log) + wal::record(entry)) == wal::replayed(log).push(entry),
{
    wal::law_intact_part_continues(log, wal::record(entry));
    wal::law_record_replays(entry, Seq::empty());
    assert(wal::record(entry) + Seq::<u8>::empty() =~= wal::record(entry));
    assert(wal::replayed(Seq::<u8>::empty()) =~= Seq::<EntryView>::empty());
    assert(wal::replayed(log) + (seq![entry] + Seq::<EntryView>::empty()) =~= wal::replayed(
        log,
    ).push(entry));
}

/// A store that is opened again has the in-memory table and the tables, in their
/// order, that the log and the directory say.
pub proof fn law_reopen_restores(opening: Opening, log: Seq<u8>, tables: Seq<Seq<u8>>)
    requires
        opens(opening, log, tables),
        naming::newest_first(tables),
        tables.no_duplicates(),
    ensures
        opening.store.tables == tables,
        opening.store.memory == storage::applied(wal::replayed(log)),
        storage::tables_ordered(tables, opening.store.next_id),
{
    naming::law_newest_first_unique(tables, opening.store.tables);
}

proof fn lemma_write_keeps_sound(disk: DiskView, entry: EntryView)
    requires
        sound(disk),
        wal::entry_fits(entry),
    ensures
        sound(after_step(disk, StoreStep::Write(entry))),
{
    let after = after_step(disk, StoreStep::Write(entry));
    let held = wal::replayed(disk.log);
    wal::law_record_replays(entry, Seq::empty());
    assert(wal::record(entry) + Seq::<u8>::empty() =~= wal::record(entry));
    assert(wal::replayed(Seq::<u8>::empty()) =~= Seq::<EntryView>::empty());
    assert(wal::replayed(after.log) == held + wal::replayed(wal::record(entry)));
    assert(held + (seq![entry] + Seq::<EntryView>::empty()) =~= held.push(entry));
    assert(held.push(entry).drop_last() =~= held);
    assert forall|rest: Seq<u8>| #[trigger]
        wal::replayed(after.log + rest) == wal::replayed(after.log) + wal::replayed(rest) by {
        wal::law_record_replays(entry, rest);
        assert(after.log + rest =~= disk.log + (wal::record(entry) + rest));
        assert(held + (seq![entry] + wal::replayed(rest)) =~= held.push(entry) + wal::replayed(
            rest,
        ));
    }
    law_history_write(
        disk.history,
        disk.store.memory,
        contents(disk.store.tables, disk.files),
        entry,
    );
    octets::lemma_pow256_values();
    match entry {
        EntryView::Put { key, value } => {
            octets::lemma_le_bytes_len(key.len(), 8);
            octets::lemma_le_bytes_len(value.len(), 8);
        },
        EntryView::Delete { key } => {
            octets::lemma_le_bytes_len(key.len(), 8);
        },
    }
}

/// The files with a new one, in front of some of the tables.
proof fn lemma_contents_in_front(disk: DiskView, file: Seq<u8>, left: int)
    requires
        sound(disk),
        disk.store.next_id < u64::MAX,
        0 <= left <= disk.store.tables.len(),
    ensures
        ({
            let name = naming::table_name(disk.store.next_id);
            let kept = disk.store.tables.take(left);
            let all = seq![name] + kept;
            let files = disk.files.insert(name, file).restrict(kept.to_set().insert(name));
            &&& contents(all, files) == seq![file] + contents(
                disk.store.tables,
                disk.files,
            ).take(left)
            &&& all.no_duplicates()
            &&& storage::tables_ordered(all, disk.store.next_id + 1)
            &&& forall|n: Seq<u8>| #[trigger] files.contains_key(n) == all.contains(n)
        }),
{
    let id = disk.store.next_id as u64;
    let name = naming::table_name(disk.store.next_id);
    let kept = disk.store.tables.take(left);
    let all = seq![name] + kept;
    let files = disk.files.insert(name, file).restrict(kept.to_set().insert(name));
    assert forall|i: int, j: int|
        0 <= i < j < kept.len() implies !naming::newer(#[trigger] kept[j], #[trigger] kept[i]) by {
        assert(kept[i] == disk.store.tables[i] && kept[j] == disk.store.tables[j]);
    }
    assert forall|i: int| 0 <= i < kept.len() implies (naming::table_id(
        #[trigger] kept[i],
    ) matches Some(id) ==> id < disk.store.next_id) by {
        assert(kept[i] == disk.store.tables[i]);
    }
    lemma_new_name(kept, id);
    lemma_new_name(disk.store.tables, id);
    storage::lemma_front(name, kept, id, disk.store.next_id + 1);
    assert forall|n: Seq<u8>| #[trigger] files.contains_key(n) == all.contains(n) by {
        if kept.contains(n) {
            let i = choose|i: int| 0 <= i < kept.len() && kept[i] == n;
            assert(disk.store.tables.contains(disk.store.tables[i]));
            assert(all[i + 1] == n);
        }
        if all.contains(n) {
            let i = choose|i: int| 0 <= i < all.len() && all[i] == n;
            if i > 0 {
                assert(kept[i - 1] == n);
                assert(disk.store.tables.contains(disk.store.tables[i - 1]));
            }
        }
        assert(all[0] == name);
    }
    let before = contents(disk.store.tables, disk.files).take(left);
    assert forall|i: int| 0 <= i < all.len() implies #[trigger] contents(all, files)[i] == (seq![
        file,
    ] + before)[i] by {
        if i > 0 {
            assert(kept[i - 1] == disk.store.tables[i - 1]);
            assert(kept.contains(kept[i - 1]));
            assert(disk.store.tables.contains(disk.store.tables[i - 1]));
            assert(all[i] != name);
        }
    }
    assert(contents(all, files) =~= seq![file] + before);
}

/// The files with a new one, in front of all the tables.
proof fn lemma_contents_with_new(disk: DiskView, file: Seq<u8>)
    requires
        sound(disk),
        disk.store.next_id < u64::MAX,
    ensures
        ({
            let name = naming::table_name(disk.store.next_id);
            let all = seq![name] + disk.store.tables;
            let files = disk.files.insert(name, file);
            &&& contents(all, files) == seq![file] + contents(disk.store.tables, disk.files)
            &&& all.no_duplicates()
            &&& storage::tables_ordered(all, disk.store.next_id + 1)
            &&& forall|n: Seq<u8>| #[trigger] files.contains_key(n) == all.contains(n)
        }),
{
    let name = naming::table_name(disk.store.next_id);
    let tables = disk.store.tables;
    let held = contents(tables, disk.files);
    let more = disk.files.insert(name, file);
    lemma_contents_in_front(disk, file, tables.len() as int);
    assert(tables.take(tables.len() as int) =~= tables);
    assert(held.take(tables.len() as int) =~= held);
    assert(more.restrict(tables.to_set().insert(name)) =~= more) by {
        assert forall|n: Seq<u8>| more.contains_key(n) implies tables.to_set().insert(
            name,
        ).contains(n) by {
            if n != name {
                assert(disk.files.contains_key(n));
            }
        }
    }
}

proof fn lemma_flush_keeps_sound(disk: DiskView, file: Seq<u8>)
    requires
        sound(disk),
        can_happen(disk, StoreStep::Flush(file)),
    ensures
        sound(after_step(disk, StoreStep::Flush(file))),
{
    lemma_contents_with_new(disk, file);
    law_history_flush(
        disk.history,
        disk.store.memory,
        contents(disk.store.tables, disk.files),
        file,
    );
    assert(wal::replayed(Seq::<u8>::empty()) =~= Seq::<EntryView>::empty());
    assert(continues(Seq::empty())) by {
        assert forall|rest: Seq<u8>| #[trigger]
            wal::replayed(Seq::<u8>::empty() + rest) == wal::replayed(Seq::<u8>::empty())
                + wal::replayed(rest) by {
            assert(Seq::<u8>::empty() + rest =~= rest);
            assert(Seq::<EntryView>::empty() + wal::replayed(rest) =~= wal::replayed(rest));
        }
    }
}

proof fn lemma_crash_in_flush_keeps_sound(
    disk: DiskView,
    file: Seq<u8>,
    kept: int,
    opening: Opening,
)
    requires
        sound(disk),
        can_happen(disk, StoreStep::CrashInFlush { file, kept, opening }),
    ensures
        sound(after_step(disk, StoreStep::CrashInFlush { file, kept, opening })),
{
    let name = naming::table_name(disk.store.next_id);
    let held = contents(disk.store.tables, disk.files);
    lemma_contents_with_new(disk, file.take(kept));
    law_reopen_restores(opening, disk.log, seq![name] + disk.store.tables);
    lemma_cut(disk.log);
    law_torn_file_is_part(file, disk.store.memory, kept);
    lemma_part_of_memory_in_front(disk.history, disk.store.memory, held, file.take(kept));
}

proof fn lemma_compaction_keeps_sound(disk: DiskView, file: Seq<u8>)
    requires
        sound(disk),
        can_happen(disk, StoreStep::Compact(file)),
    ensures
        sound(after_step(disk, StoreStep::Compact(file))),
{
    let name = naming::table_name(disk.store.next_id);
    let held = contents(disk.store.tables, disk.files);
    let none: Seq<Seq<u8>> = Seq::empty();
    lemma_contents_in_front(disk, file, 0);
    assert(disk.store.tables.take(0) =~= none);
    assert(seq![name] + none =~= seq![name]);
    assert(none.to_set().insert(name) =~= set![name]);
    assert(seq![file] + held.take(0) =~= seq![file]);
    law_history_compaction(disk.history, disk.store.memory, held, file);
}

proof fn lemma_crash_in_compaction_keeps_sound(
    disk: DiskView,
    file: Seq<u8>,
    kept: int,
    left: int,
    opening: Opening,
)
    requires
        sound(disk),
        can_happen(disk, StoreStep::CrashInCompaction { file, kept, left, opening }),
    ensures
        sound(after_step(disk, StoreStep::CrashInCompaction { file, kept, left, opening })),
{
    let name = naming::table_name(disk.store.next_id);
    let tables = disk.store.tables;
    let held = contents(tables, disk.files);
    let part = file.take(kept);
    lemma_contents_in_front(disk, part, left);
    law_reopen_restores(opening, disk.log, seq![name] + tables.take(left));
    lemma_cut(disk.log);
    if kept < file.len() {
        assert(held.take(left) =~= held);
        lemma_merge_fits(held);
        law_torn_file_is_part(
            file,
            sorted::live(storage::merged(storage::tables_in(held.reverse()))),
            kept,
        );
        lemma_part_of_merge_in_front(disk.history, disk.store.memory, held, part, file);
    } else {
        assert(part =~= file);
        law_history_merged_in_front(disk.history, disk.store.memory, held, file, left);
    }
}

proof fn lemma_step_keeps_sound(disk: DiskView, step: StoreStep)
    requires
        sound(disk),
        can_happen(disk, step),
    ensures
        sound(after_step(disk, step)),
        after_step(disk, step).history == match step {
            StoreStep::Write(entry) => disk.history.push(entry),
            _ => disk.history,
        },
{
    match step {
        StoreStep::Write(entry) => lemma_write_keeps_sound(disk, entry),
        StoreStep::Flush(file) => lemma_flush_keeps_sound(disk, file),
        StoreStep::Compact(file) => lemma_compaction_keeps_sound(disk, file),
        StoreStep::Reopen(opening) => {
            law_reopen_restores(opening, disk.log, disk.store.tables);
            lemma_cut(disk.log);
        },
        StoreStep::Crash { torn, kept, opening } => {
            let part = wal::record(torn).take(kept);
            law_reopen_restores(opening, disk.log + part, disk.store.tables);
            lemma_cut(disk.log + part);
            wal::law_torn_record_dropped(wal::enc_entry(torn), wal::crc32(wal::enc_entry(torn)), kept);
            assert(wal::replayed(disk.log) + Seq::<EntryView>::empty() =~= wal::replayed(disk.log));
        },
        StoreStep::CrashInFlush { file, kept, opening } => {
            lemma_crash_in_flush_keeps_sound(disk, file, kept, opening);
        },
        StoreStep::CrashInCompaction { file, kept, left, opening } => {
            lemma_crash_in_compaction_keeps_sound(disk, file, kept, left, opening);
        },
    }
}

/// No write is lost: whatever writes, flushes, compactions and crashes a store
/// goes through, every key reads as the last write to it left it, and the
/// in-memory table is what the log says.
pub proof fn law_no_write_is_lost(disk: DiskView, steps: Seq<StoreStep>)
    requires
        sound(disk),
        can_all_happen(disk, steps),
    ensures
        sound(after_steps(disk, steps)),
    decreases steps.len(),
{
    if steps.len() > 0 {
        law_no_write_is_lost(disk, steps.drop_last());
        lemma_step_keeps_sound(after_steps(disk, steps.drop_last()), steps.last());
    }
}

/// A store that is opened again reads every key as the store before it did, from
/// the same tables in the same order, and a flush of it overwrites no file.
pub proof fn law_reopened_store_reads_the_same(
    disk: DiskView,
    opening: Opening,
    key: Seq<u8>,
)
    requires
        sound(disk),
        opens(opening, disk.log, disk.store.tables),
    ensures
        opening.store.tables == disk.store.tables,
        storage::read_through(
            opening.store.memory,
            contents(opening.store.tables, disk.files),
            key,
        ) == storage::read_through(
            disk.store.memory,
            contents(disk.store.tables, disk.files),
            key,
        ),
        opening.store.next_id <= u64::MAX ==> !disk.files.contains_key(
            naming::table_name(opening.store.next_id),
        ),
{
    law_reopen_restores(opening, disk.log, disk.store.tables);
    if opening.store.next_id <= u64::MAX {
        lemma_new_name(disk.store.tables, opening.store.next_id as u64);
    }
}

/// A read of a store that is handed every table it asks for returns what the
/// last write to the key left.
pub proof fn law_store_reads_last_write(disk: DiskView, key: Seq<u8>)
    requires
        sound(disk),
    ensures
        storage::read_through(
            disk.store.memory,
            contents(disk.store.tables, disk.files),
            key,
        ) == storage::lookup(storage::applied(disk.history), Seq::empty(), key),
{
    law_read_is_lookup(disk.store.memory, contents(disk.store.tables, disk.files), key);
    assert(storage::lookup(
        disk.store.memory,
        storage::tables_in(contents(disk.store.tables, disk.files)),
        key,
    ) == storage::lookup(storage::applied(disk.history), Seq::empty(), key));
}

/// A store that is opened on an empty directory is sound.
pub proof fn law_new_store_is_sound(store: StoreView)
    requires
        storage::opened(store, Seq::empty(), Seq::empty()),
    ensures
        sound(
            DiskView { history: Seq::empty(), store, log: Seq::empty(), files: Map::empty() },
        ),
{
    broadcast use vstd::seq_lib::group_to_multiset_ensures;

    let none: Seq<Seq<u8>> = Seq::empty();
    assert(naming::tables_among(none) =~= none);
    assert(store.tables.len() == store.tables.to_multiset().len());
    assert(none.len() == none.to_multiset().len());
    assert(store.tables =~= none);
    law_history_starts_empty();
    lemma_cut(Seq::empty());
    assert(cut(Seq::empty()) =~= Seq::empty());
    assert(wal::replayed(Seq::<u8>::empty()) =~= Seq::<EntryView>::empty());
    assert(contents(store.tables, Map::empty()) =~= Seq::empty());
}

} // verus!
