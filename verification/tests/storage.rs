use std::collections::BTreeMap;

use bft_engine::memtable::MemTable;
use bft_engine::naming::{is_newer, is_table_name, make_table_name, number_of_table, parse_number};
use bft_engine::sorted::SortedMap;
use bft_engine::sstable::SSTable;
use bft_engine::storage::{Lookup, StorageEngine, MEMTABLE_FLUSH_THRESHOLD};
use bft_engine::wal::{intact_len, WalEntry, WriteAheadLog};

/// A directory in memory.
#[derive(Default)]
struct Disk {
    log: Vec<u8>,
    files: BTreeMap<Vec<u8>, Vec<u8>>,
}

fn open(disk: &mut Disk) -> StorageEngine {
    let names: Vec<Vec<u8>> = disk.files.keys().cloned().collect();
    let store = StorageEngine::open(&disk.log, &names);
    disk.log.truncate(intact_len(&disk.log));
    store
}

fn flush(engine: &mut StorageEngine, disk: &mut Disk) {
    if let Some(write) = engine.flush_memtable() {
        disk.files.insert(write.name().clone(), write.bytes().clone());
        engine.flushed(write);
        disk.log.clear();
        engine.log_truncated();
    }
}

fn put(engine: &mut StorageEngine, disk: &mut Disk, key: &[u8], value: &[u8]) {
    let write = engine.put(key.to_vec(), value.to_vec());
    disk.log.extend(write.bytes());
    if engine.logged(write) {
        flush(engine, disk);
    }
}

fn delete(engine: &mut StorageEngine, disk: &mut Disk, key: &[u8]) {
    let write = engine.delete(key.to_vec());
    disk.log.extend(write.bytes());
    assert!(!engine.logged(write));
}

fn get(engine: &StorageEngine, disk: &Disk, key: &[u8]) -> Option<Vec<u8>> {
    let mut step = engine.get(key);
    loop {
        match step {
            Lookup::Answer(value) => return value,
            Lookup::InTable(at) => {
                let file = &disk.files[&engine.sstable_paths()[at]];
                step = engine.get_from_table(key, at, file);
            }
        }
    }
}

fn compact(engine: &mut StorageEngine, disk: &mut Disk) {
    if let Some(names) = engine.compact() {
        let files: Vec<Vec<u8>> = names.iter().map(|name| disk.files[name].clone()).collect();
        let merge = engine.merge(&files);
        disk.files.insert(merge.table().name().clone(), merge.table().bytes().clone());
        for name in engine.compacted(merge) {
            disk.files.remove(&name);
        }
    }
}

#[test]
fn test_wal_append_and_replay() {
    // Write entries
    let mut bytes: Vec<u8> = Vec::new();
    {
        let mut wal = WriteAheadLog::open();
        for entry in [
            WalEntry::Put {
                key: b"k1".to_vec(),
                value: b"v1".to_vec(),
            },
            WalEntry::Put {
                key: b"k2".to_vec(),
                value: b"v2".to_vec(),
            },
            WalEntry::Delete {
                key: b"k1".to_vec(),
            },
        ] {
            bytes.extend(wal.append(&entry));
            wal.appended();
        }
        assert_eq!(wal.entry_count(), 3);
    }

    // Replay
    let entries = WriteAheadLog::replay(&bytes);
    assert_eq!(entries.len(), 3);
    assert_eq!(
        entries[0],
        WalEntry::Put {
            key: b"k1".to_vec(),
            value: b"v1".to_vec()
        }
    );
    assert_eq!(
        entries[2],
        WalEntry::Delete {
            key: b"k1".to_vec()
        }
    );
}

#[test]
fn test_memtable_basic() {
    let mut mt = MemTable::new();
    mt.put(b"hello".to_vec(), b"world".to_vec());
    assert_eq!(mt.get(b"hello"), Some(&Some(b"world".to_vec())));
    assert_eq!(mt.get(b"missing"), None);

    mt.delete(b"hello".to_vec());
    assert_eq!(mt.get(b"hello"), Some(&None)); // tombstone
}

#[test]
fn test_sstable_write_read() {
    let mut data = SortedMap::new();
    data.insert(b"apple".to_vec(), Some(b"red".to_vec()));
    data.insert(b"banana".to_vec(), Some(b"yellow".to_vec()));
    data.insert(b"cherry".to_vec(), None); // tombstone

    let file = SSTable::write(&data);
    let loaded = SSTable::read(&file);

    assert_eq!(loaded.len(), 3);
    assert_eq!(loaded.get(b"apple"), Some(&Some(b"red".to_vec())));
    assert_eq!(loaded.get(b"banana"), Some(&Some(b"yellow".to_vec())));
    assert_eq!(loaded.get(b"cherry"), Some(&None));
}

#[test]
fn test_storage_engine_put_get() {
    let mut disk = Disk::default();
    let mut engine = open(&mut disk);

    put(&mut engine, &mut disk, b"key1", b"value1");
    put(&mut engine, &mut disk, b"key2", b"value2");

    assert_eq!(get(&engine, &disk, b"key1"), Some(b"value1".to_vec()));
    assert_eq!(get(&engine, &disk, b"key2"), Some(b"value2".to_vec()));
    assert_eq!(get(&engine, &disk, b"missing"), None);
}

#[test]
fn test_storage_engine_overwrite() {
    let mut disk = Disk::default();
    let mut engine = open(&mut disk);

    put(&mut engine, &mut disk, b"key", b"v1");
    put(&mut engine, &mut disk, b"key", b"v2");

    assert_eq!(get(&engine, &disk, b"key"), Some(b"v2".to_vec()));
}

#[test]
fn test_storage_engine_delete() {
    let mut disk = Disk::default();
    let mut engine = open(&mut disk);

    put(&mut engine, &mut disk, b"key", b"value");
    delete(&mut engine, &mut disk, b"key");

    assert_eq!(get(&engine, &disk, b"key"), None);
}

#[test]
fn test_storage_engine_crash_recovery() {
    let mut disk = Disk::default();

    // Write some data and "crash" (drop without flush)
    {
        let mut engine = open(&mut disk);
        put(&mut engine, &mut disk, b"survived", b"yes");
    }

    // Reopen — should recover from WAL
    let engine = open(&mut disk);
    assert_eq!(
        get(&engine, &disk, b"survived"),
        Some(b"yes".to_vec()),
        "data should survive crash via WAL replay"
    );
}

#[test]
fn test_storage_engine_flush_and_read_from_sst() {
    let mut disk = Disk::default();
    let mut engine = open(&mut disk);

    put(&mut engine, &mut disk, b"k1", b"v1");
    put(&mut engine, &mut disk, b"k2", b"v2");
    flush(&mut engine, &mut disk);

    // MemTable is now empty; reads should come from SSTable
    assert!(engine.memtable().is_empty());
    assert_eq!(get(&engine, &disk, b"k1"), Some(b"v1".to_vec()));
    assert_eq!(get(&engine, &disk, b"k2"), Some(b"v2".to_vec()));
}

#[test]
fn test_storage_engine_compaction() {
    let mut disk = Disk::default();
    let mut engine = open(&mut disk);

    // Create two SSTables
    put(&mut engine, &mut disk, b"a", b"1");
    flush(&mut engine, &mut disk);

    put(&mut engine, &mut disk, b"b", b"2");
    put(&mut engine, &mut disk, b"a", b"updated");
    flush(&mut engine, &mut disk);

    assert_eq!(engine.sstable_paths().len(), 2);

    // Compact
    compact(&mut engine, &mut disk);
    assert_eq!(engine.sstable_paths().len(), 1);

    // Values should still be correct
    assert_eq!(get(&engine, &disk, b"a"), Some(b"updated".to_vec()));
    assert_eq!(get(&engine, &disk, b"b"), Some(b"2".to_vec()));
}

#[test]
fn a_record_has_length_payload_and_checksum() {
    let entry = WalEntry::Put { key: b"k".to_vec(), value: b"v".to_vec() };
    let payload: Vec<u8> =
        bincode::serialize(&(0u32, b"k".to_vec(), b"v".to_vec())).unwrap();
    let mut expected = (payload.len() as u32).to_le_bytes().to_vec();
    expected.extend(&payload);
    expected.extend(crc32fast::hash(&payload).to_le_bytes());
    assert_eq!(WriteAheadLog::open().append(&entry), expected);
    assert_eq!(entry.to_bytes(), payload);
    assert_eq!(WalEntry::from_bytes(&payload).unwrap(), entry);

    let gone = WalEntry::Delete { key: b"k".to_vec() };
    assert_eq!(gone.to_bytes(), bincode::serialize(&(1u32, b"k".to_vec())).unwrap());
}

#[test]
fn the_checksum_is_crc32() {
    // The checksum of "123456789" is a well-known value.
    assert_eq!(crc32fast::hash(b"123456789"), 0xCBF43926);
    let record = WriteAheadLog::open().append(&WalEntry::Delete { key: vec![] });
    let n = record.len();
    let stored = u32::from_le_bytes([record[n - 4], record[n - 3], record[n - 2], record[n - 1]]);
    assert_eq!(stored, crc32fast::hash(&record[4..n - 4]));
}

#[test]
fn a_torn_record_is_dropped_and_the_rest_survives() {
    let wal = WriteAheadLog::open();
    let first = WalEntry::Put { key: vec![1], value: vec![2] };
    let second = WalEntry::Delete { key: vec![3] };
    let whole = wal.append(&first);
    let torn = wal.append(&second);
    for kept in 0..torn.len() {
        let mut log = whole.clone();
        log.extend(&torn[..kept]);
        assert_eq!(WriteAheadLog::replay(&log), vec![first.clone()]);
    }
}

#[test]
fn a_corrupted_record_is_skipped_and_the_rest_survives() {
    let wal = WriteAheadLog::open();
    let entries = [
        WalEntry::Put { key: vec![1], value: vec![2] },
        WalEntry::Put { key: vec![3], value: vec![4] },
        WalEntry::Delete { key: vec![1] },
    ];
    let records: Vec<Vec<u8>> = entries.iter().map(|e| wal.append(e)).collect();
    let mut damaged = records[1].clone();
    damaged[8] ^= 1; // in the payload
    let log = [records[0].clone(), damaged, records[2].clone()].concat();
    assert_eq!(WriteAheadLog::replay(&log), vec![entries[0].clone(), entries[2].clone()]);
}

#[test]
fn an_intact_record_that_is_no_entry_is_skipped() {
    let payload = [9u8, 0, 0, 0];
    let mut log = 4u32.to_le_bytes().to_vec();
    log.extend(payload);
    log.extend(crc32fast::hash(&payload).to_le_bytes());
    let entry = WalEntry::Delete { key: vec![7] };
    log.extend(WriteAheadLog::open().append(&entry));
    assert_eq!(WriteAheadLog::replay(&log), vec![entry]);
}

#[test]
fn an_absurd_length_ends_the_replay() {
    let entry = WalEntry::Delete { key: vec![7] };
    let record = WriteAheadLog::open().append(&entry);
    let mut log = record.clone();
    log.extend((64u32 * 1024 * 1024 + 1).to_le_bytes());
    log.extend(&record);
    assert_eq!(WriteAheadLog::replay(&log), vec![entry]);
    assert!(WriteAheadLog::replay(&[]).is_empty());
}

#[test]
fn the_log_counts_what_was_appended() {
    let mut wal = WriteAheadLog::open();
    assert_eq!(wal.entry_count(), 0);
    wal.appended();
    wal.appended();
    assert_eq!(wal.entry_count(), 2);
    wal.truncate();
    assert_eq!(wal.entry_count(), 0);
}

#[test]
fn a_memtable_counts_bytes_and_keys() {
    let mut mt = MemTable::default();
    assert!(mt.is_empty());
    mt.put(b"ab".to_vec(), b"cde".to_vec());
    mt.put(b"ab".to_vec(), b"f".to_vec());
    mt.delete(b"zz".to_vec());
    // Overwritten bytes still count.
    assert_eq!(mt.size_bytes(), 5 + 3 + 2);
    assert_eq!(mt.len(), 2);
    let data = mt.drain();
    assert_eq!(
        data.as_entries(),
        &vec![(b"ab".to_vec(), Some(b"f".to_vec())), (b"zz".to_vec(), None)]
    );
    assert!(mt.is_empty());
    assert_eq!(mt.size_bytes(), 0);
}

#[test]
fn entries_come_in_key_order() {
    let mut map = SortedMap::new();
    for key in [&b"b"[..], b"", b"ab", b"a", b"\xff", b"ba"] {
        map.insert(key.to_vec(), None);
    }
    let keys: Vec<&[u8]> = map.as_entries().iter().map(|e| &e.0[..]).collect();
    assert_eq!(keys, vec![&b""[..], b"a", b"ab", b"b", b"ba", b"\xff"]);
    let mut expected: Vec<&[u8]> = keys.clone();
    expected.sort();
    assert_eq!(keys, expected);
    map.drop_tombstones();
    assert!(map.is_empty());
}

#[test]
fn a_table_has_rows_and_a_footer() {
    let mut data = SortedMap::new();
    data.insert(b"b".to_vec(), None);
    data.insert(b"a".to_vec(), Some(b"xy".to_vec()));
    let file = SSTable::write(&data);
    assert_eq!(
        file,
        [
            &[1, 0, 0, 0][..],
            b"a",
            &[1],
            &[2, 0, 0, 0],
            b"xy",
            &[1, 0, 0, 0],
            b"b",
            &[0],
            &[2, 0, 0, 0, 0, 0, 0, 0],
        ]
        .concat()
    );
}

#[test]
fn a_broken_table_is_read_as_far_as_it_goes() {
    let mut data = SortedMap::new();
    data.insert(b"a".to_vec(), Some(b"xy".to_vec()));
    data.insert(b"b".to_vec(), Some(b"z".to_vec()));
    let file = SSTable::write(&data);
    assert!(SSTable::read(&[]).is_empty());
    assert!(SSTable::read(&file[..7]).is_empty());
    // Without its last byte the second row is cut off.
    let loaded = SSTable::read(&file[..file.len() - 1]);
    assert_eq!(loaded.len(), 1);
    assert_eq!(loaded.get(b"a"), Some(&Some(b"xy".to_vec())));
    // A mark that is neither 0 nor 1 stands for a tombstone.
    let mut marked = vec![1, 0, 0, 0, b'k', 7];
    marked.extend([0; 8]);
    assert_eq!(SSTable::read(&marked).get(b"k"), Some(&None));
}

#[test]
fn table_names_carry_their_number() {
    assert_eq!(make_table_name(1), b"sst_000001.sst".to_vec());
    assert_eq!(make_table_name(123456), b"sst_123456.sst".to_vec());
    assert_eq!(make_table_name(1234567), b"sst_1234567.sst".to_vec());
    for id in [0, 1, 999_999, 1_000_000, u64::MAX] {
        assert_eq!(number_of_table(&make_table_name(id)), Some(id));
        assert!(is_table_name(&make_table_name(id)));
    }
    assert_eq!(number_of_table(b"sst_x.sst"), None);
    assert_eq!(number_of_table(b"other_1.sst"), None);
    assert_eq!(number_of_table(b"sst_1.txt"), None);
    assert!(!is_table_name(b".sst"));
    assert!(is_table_name(b"a.sst"));
    assert!(!is_table_name(b"wal.log"));
}

#[test]
fn numbers_are_read_as_std_reads_them() {
    for text in ["", "0", "007", "+5", "+", "-1", "12a", "18446744073709551615",
        "18446744073709551616", "99999999999999999999999", "1 "]
    {
        assert_eq!(parse_number(text.as_bytes()), text.parse::<u64>().ok());
    }
}

#[test]
fn the_higher_number_is_newer() {
    // The order of names as text would put the second before the first.
    assert!(is_newer(&make_table_name(1_000_000), &make_table_name(999_999)));
    assert!(!is_newer(&make_table_name(999_999), &make_table_name(1_000_000)));
    assert!(is_newer(b"sst_000001.sst", b"stray.sst"));
    assert!(!is_newer(b"stray.sst", b"sst_000001.sst"));
    assert!(is_newer(b"b.sst", b"a.sst"));
}

#[test]
fn tables_are_put_in_order_when_a_store_is_opened() {
    let names = vec![
        make_table_name(2),
        b"wal.log".to_vec(),
        b"stray.sst".to_vec(),
        make_table_name(1_000_000),
        make_table_name(999_999),
    ];
    let engine = StorageEngine::open(&[], &names);
    assert_eq!(
        engine.sstable_paths(),
        &vec![
            make_table_name(1_000_000),
            make_table_name(999_999),
            make_table_name(2),
            b"stray.sst".to_vec()
        ]
    );
    assert_eq!(engine.next_sst_id(), 1_000_001);
    assert_eq!(StorageEngine::open(&[], &vec![]).next_sst_id(), 1);
}

#[test]
fn deletes_hide_older_tables_also_after_compaction() {
    let mut disk = Disk::default();
    let mut engine = open(&mut disk);
    put(&mut engine, &mut disk, b"k", b"v");
    flush(&mut engine, &mut disk);
    delete(&mut engine, &mut disk, b"k");
    assert_eq!(get(&engine, &disk, b"k"), None);
    flush(&mut engine, &mut disk);
    assert_eq!(get(&engine, &disk, b"k"), None);
    compact(&mut engine, &mut disk);
    assert_eq!(get(&engine, &disk, b"k"), None);
    // Nothing of the key is left on disk.
    let file = disk.files.values().next().unwrap();
    assert_eq!(file, &vec![0u8; 8]);
}

#[test]
fn compaction_needs_two_tables() {
    let mut disk = Disk::default();
    let mut engine = open(&mut disk);
    assert!(engine.compact().is_none());
    put(&mut engine, &mut disk, b"k", b"v");
    flush(&mut engine, &mut disk);
    assert!(engine.compact().is_none());
    assert_eq!(engine.next_sst_id(), 2);
}

#[test]
fn an_empty_memtable_is_not_flushed() {
    let mut disk = Disk::default();
    let mut engine = open(&mut disk);
    assert!(engine.flush_memtable().is_none());
    assert_eq!(engine.next_sst_id(), 1);
    flush(&mut engine, &mut disk);
    assert!(disk.files.is_empty());
}

#[test]
fn reaching_the_threshold_flushes() {
    let mut disk = Disk::default();
    let mut engine = open(&mut disk);
    put(&mut engine, &mut disk, b"k", &vec![7u8; MEMTABLE_FLUSH_THRESHOLD - 2]);
    assert_eq!(engine.sstable_paths().len(), 0);
    assert_eq!(engine.wal().entry_count(), 1);
    put(&mut engine, &mut disk, b"x", b"");
    assert_eq!(engine.sstable_paths().len(), 1);
    assert_eq!(engine.sstable_paths()[0], make_table_name(1));
    assert!(disk.log.is_empty());
    assert_eq!(engine.wal().entry_count(), 0);
    assert_eq!(get(&engine, &disk, b"x"), Some(vec![]));
    assert_eq!(get(&engine, &disk, b"k").unwrap().len(), MEMTABLE_FLUSH_THRESHOLD - 2);
}

#[test]
fn a_delete_never_flushes() {
    let mut disk = Disk::default();
    let mut engine = open(&mut disk);
    let write = engine.delete(vec![1u8; MEMTABLE_FLUSH_THRESHOLD]);
    assert!(!engine.logged(write));
    assert_eq!(engine.memtable().size_bytes(), MEMTABLE_FLUSH_THRESHOLD);
}

#[test]
fn a_crash_between_flush_and_truncation_loses_nothing() {
    let mut disk = Disk::default();
    let mut engine = open(&mut disk);
    put(&mut engine, &mut disk, b"k", b"1");
    let write = engine.flush_memtable().unwrap();
    disk.files.insert(write.name().clone(), write.bytes().clone());
    // The log is still there.
    let again = open(&mut disk);
    assert_eq!(get(&again, &disk, b"k"), Some(b"1".to_vec()));
    assert_eq!(again.sstable_paths().len(), 1);
}

#[test]
fn a_reopened_store_reads_as_before() {
    let mut disk = Disk::default();
    let mut engine = open(&mut disk);
    for i in 0u8..20 {
        put(&mut engine, &mut disk, &[i % 7], &[i]);
        if i % 5 == 4 {
            flush(&mut engine, &mut disk);
        }
        if i == 11 {
            compact(&mut engine, &mut disk);
        }
    }
    delete(&mut engine, &mut disk, &[3]);
    let again = open(&mut disk);
    assert_eq!(again.sstable_paths(), engine.sstable_paths());
    for key in 0u8..8 {
        assert_eq!(get(&again, &disk, &[key]), get(&engine, &disk, &[key]));
    }
    assert_eq!(get(&again, &disk, &[3]), None);
    assert_eq!(get(&again, &disk, &[5]), Some(vec![19]));
    assert_eq!(get(&again, &disk, &[7]), None);
}

#[test]
fn the_checksum_is_crc_32() {
    let entry = WalEntry::Put { key: b"some key".to_vec(), value: b"and a value".to_vec() };
    let payload = entry.to_bytes();
    let mut crc = 0xffff_ffffu32;
    for byte in &payload {
        crc ^= *byte as u32;
        for _ in 0..8 {
            crc = if crc & 1 == 1 { (crc >> 1) ^ 0xedb8_8320 } else { crc >> 1 };
        }
    }
    let record = WriteAheadLog::open().append(&entry);
    assert_eq!(record[record.len() - 4..], (crc ^ 0xffff_ffff).to_le_bytes());
}

#[test]
fn a_log_is_in_order_up_to_a_record_that_is_cut_off() {
    let record = WriteAheadLog::open().append(&WalEntry::Delete { key: b"k".to_vec() });
    assert_eq!(intact_len(&[]), 0);
    assert_eq!(intact_len(&[5, 0, 0, 0, 1]), 0);
    for kept in 0..record.len() {
        let mut log = record.clone();
        log.extend(&record[..kept]);
        assert_eq!(intact_len(&log), record.len());
    }
    // A record that is whole but damaged stays, one with an absurd length goes.
    let mut damaged = record.clone();
    damaged[4] ^= 1;
    assert_eq!(intact_len(&damaged), record.len());
    let mut absurd = record.clone();
    absurd.extend([255; 40]);
    assert_eq!(intact_len(&absurd), record.len());
}

#[test]
fn a_write_behind_a_torn_record_survives() {
    let mut disk = Disk { log: vec![5, 0, 0, 0, 1], ..Disk::default() };
    let mut engine = open(&mut disk);
    put(&mut engine, &mut disk, b"k", b"v");
    let again = open(&mut disk);
    assert_eq!(get(&again, &disk, b"k"), Some(b"v".to_vec()));
}

#[test]
fn a_crash_while_merged_tables_are_removed_loses_nothing() {
    let mut disk = Disk::default();
    let mut engine = open(&mut disk);
    put(&mut engine, &mut disk, b"a", b"1");
    put(&mut engine, &mut disk, b"b", b"1");
    flush(&mut engine, &mut disk);
    delete(&mut engine, &mut disk, b"a");
    flush(&mut engine, &mut disk);
    put(&mut engine, &mut disk, b"c", b"1");
    flush(&mut engine, &mut disk);
    let files: Vec<Vec<u8>> =
        engine.compact().unwrap().iter().map(|name| disk.files[name].clone()).collect();
    let merge = engine.merge(&files);
    disk.files.insert(merge.table().name().clone(), merge.table().bytes().clone());
    for name in engine.compacted(merge) {
        // Here the process may end.
        let again = open(&mut disk);
        assert_eq!(get(&again, &disk, b"a"), None);
        assert_eq!(get(&again, &disk, b"b"), Some(b"1".to_vec()));
        assert_eq!(get(&again, &disk, b"c"), Some(b"1".to_vec()));
        disk.files.remove(&name);
    }
    assert_eq!(get(&engine, &disk, b"a"), None);
    assert_eq!(get(&engine, &disk, b"b"), Some(b"1".to_vec()));
    assert_eq!(disk.files.len(), 1);
}

#[test]
fn a_reopened_store_overwrites_no_table() {
    let mut disk = Disk::default();
    let mut engine = open(&mut disk);
    for key in [b"a", b"b", b"c"] {
        put(&mut engine, &mut disk, key, b"1");
        flush(&mut engine, &mut disk);
        engine = open(&mut disk);
    }
    assert_eq!(disk.files.len(), 3);
    for key in [b"a", b"b", b"c"] {
        assert_eq!(get(&engine, &disk, key), Some(b"1".to_vec()));
    }
}

#[test]
fn a_crash_while_a_table_is_written_loses_nothing() {
    let mut disk = Disk::default();
    let mut engine = open(&mut disk);
    put(&mut engine, &mut disk, b"a", b"old");
    put(&mut engine, &mut disk, b"b", b"old");
    flush(&mut engine, &mut disk);
    put(&mut engine, &mut disk, b"a", b"new");
    delete(&mut engine, &mut disk, b"b");
    let write = engine.flush_memtable().unwrap();
    for kept in 0..write.bytes().len() {
        // So many bytes of the file are written when the process ends.
        let mut left = Disk { log: disk.log.clone(), files: disk.files.clone() };
        left.files.insert(write.name().clone(), write.bytes()[..kept].to_vec());
        let mut again = open(&mut left);
        assert_eq!(get(&again, &left, b"a"), Some(b"new".to_vec()));
        assert_eq!(get(&again, &left, b"b"), None);
        flush(&mut again, &mut left);
        assert_eq!(left.files.len(), 3);
        assert_eq!(get(&again, &left, b"a"), Some(b"new".to_vec()));
        assert_eq!(get(&again, &left, b"b"), None);
    }
}
