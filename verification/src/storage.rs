//! The store: a write-ahead log, an in-memory table and sorted tables on disk.
//!
//! The store decides what is written and read; the caller moves the bytes. A
//! write is first handed out as bytes for the log and takes effect when the
//! caller reports that they are in the log. A read that the in-memory table
//! does not answer asks for the tables, one by one. A flush and a compaction
//! hand out the file of a new table and take effect when it is written.
use vstd::prelude::*;

use crate::memtable::MemTable;
use crate::naming;
use crate::naming::{insert_by_age, is_table_name, make_table_name, number_of_table};
use crate::octets::copy_bytes;
use crate::sorted;
use crate::sorted::{Slot, SortedMap, Table};
use crate::sstable;
use crate::sstable::SSTable;
use crate::wal;
use crate::wal::{EntryView, WalEntry, WriteAheadLog};

verus! {

/// Size in bytes from which on the in-memory table is flushed, 4 MiB.
pub const MEMTABLE_FLUSH_THRESHOLD: usize = 4_194_304;

// ---------------------------------------------------------------------------
// The model
// ---------------------------------------------------------------------------

/// A table after an entry of the log.
pub open spec fn apply_entry(table: Table, entry: EntryView) -> Table {
    match entry {
        EntryView::Put { key, value } => table.insert(key, Some(value)),
        EntryView::Delete { key } => table.insert(key, None),
    }
}

/// The table that entries make, applied in order.
pub open spec fn applied(entries: Seq<EntryView>) -> Table
    decreases entries.len(),
{
    if entries.len() == 0 {
        Map::empty()
    } else {
        apply_entry(applied(entries.drop_last()), entries.last())
    }
}

/// How many bytes of keys and values an entry writes.
pub open spec fn entry_size(entry: EntryView) -> nat {
    match entry {
        EntryView::Put { key, value } => key.len() + value.len(),
        EntryView::Delete { key } => key.len(),
    }
}

/// How many bytes of keys and values entries write.
pub open spec fn total_size(entries: Seq<EntryView>) -> nat
    decreases entries.len(),
{
    if entries.len() == 0 {
        0
    } else {
        total_size(entries.drop_last()) + entry_size(entries.last())
    }
}

/// What a read of a key returns: the first table that knows the key answers,
/// the in-memory table before the tables on disk and these in their order.
pub open spec fn lookup(memory: Table, tables: Seq<Table>, key: Seq<u8>) -> Slot
    decreases tables.len(),
{
    if memory.contains_key(key) {
        memory[key]
    } else if tables.len() == 0 {
        None
    } else {
        lookup(tables[0], tables.skip(1), key)
    }
}

/// What table files hold.
pub open spec fn tables_in(files: Seq<Seq<u8>>) -> Seq<Table> {
    files.map_values(|file: Seq<u8>| sstable::read_table(file))
}

/// Tables merged in order: of two that know a key the later one counts.
pub open spec fn merged(tables: Seq<Table>) -> Table
    decreases tables.len(),
{
    if tables.len() == 0 {
        Map::empty()
    } else {
        merged(tables.drop_last()).union_prefer_right(tables.last())
    }
}

/// Whether bytes are the file of a table: its rows in key order.
pub open spec fn is_file_of(bytes: Seq<u8>, table: Table) -> bool {
    exists|rows: Seq<(Seq<u8>, Slot)>| #[trigger]
        sorted::ascending(rows) && sorted::table_of(rows) == table && bytes == sstable::enc_table(
            rows,
        )
}

/// What a store stands for.
#[verifier::ext_equal]
pub struct StoreView {
    /// The in-memory table.
    pub memory: Table,
    /// How many bytes have been written to it.
    pub size: nat,
    /// How many entries have been appended to the log.
    pub logged: nat,
    /// The names of the tables on disk, the newest first.
    pub tables: Seq<Seq<u8>>,
    /// The number of the next table.
    pub next_id: nat,
}

/// The tables are newest first, and every number of a table is below the next.
pub open spec fn tables_ordered(tables: Seq<Seq<u8>>, next_id: nat) -> bool {
    &&& naming::newest_first(tables)
    &&& forall|i: int|
        0 <= i < tables.len() ==> (naming::table_id(#[trigger] tables[i]) matches Some(id) ==> id
            < next_id)
}

/// A store that has just been opened on the bytes of a log and the names of the
/// files beside it.
pub open spec fn opened(store: StoreView, log: Seq<u8>, names: Seq<Seq<u8>>) -> bool {
    &&& store.memory == applied(wal::replayed(log))
    &&& store.size == total_size(wal::replayed(log))
    &&& store.logged == 0
    &&& store.tables.to_multiset() == naming::tables_among(names).to_multiset()
    &&& tables_ordered(store.tables, store.next_id)
    &&& store.next_id == naming::highest_id(naming::tables_among(names)) + 1
}

/// The store after an entry has been appended to the log.
pub open spec fn after_logged(store: StoreView, entry: EntryView) -> StoreView {
    StoreView {
        memory: apply_entry(store.memory, entry),
        size: store.size + entry_size(entry),
        logged: store.logged + 1,
        ..store
    }
}

/// The store after the in-memory table has been taken out to be flushed.
pub open spec fn after_drained(store: StoreView) -> StoreView {
    StoreView { memory: Map::empty(), size: 0, next_id: store.next_id + 1, ..store }
}

/// The store after the file of a flush has been written.
pub open spec fn after_flushed(store: StoreView, id: nat) -> StoreView {
    StoreView { tables: seq![naming::table_name(id)] + store.tables, ..store }
}

/// The store after the log has been emptied.
pub open spec fn after_truncated(store: StoreView) -> StoreView {
    StoreView { logged: 0, ..store }
}

/// The store after a number has been given to the table of a merge.
pub open spec fn after_merge(store: StoreView) -> StoreView {
    StoreView { next_id: store.next_id + 1, ..store }
}

/// The store after the file of a merge has been written.
pub open spec fn after_compacted(store: StoreView, id: nat) -> StoreView {
    StoreView { tables: seq![naming::table_name(id)], ..store }
}

/// Whether memory has to be flushed after an entry that brings it to a size.
pub open spec fn flush_due(entry: EntryView, size: nat) -> bool {
    entry is Put && size >= MEMTABLE_FLUSH_THRESHOLD
}

/// The tables that a compaction merges, if it has any to merge.
pub open spec fn to_merge(tables: Seq<Seq<u8>>) -> Option<Seq<Seq<u8>>> {
    if tables.len() < 2 {
        None
    } else {
        Some(tables.reverse())
    }
}

/// Memory is flushed after a write that brings it to 4 MiB, and never after a
/// delete.
pub proof fn law_flush_is_due_from_the_threshold_on(key: Seq<u8>, value: Seq<u8>, size: nat)
    ensures
        flush_due(EntryView::Put { key, value }, size) <==> size >= 4 * 1024 * 1024,
        !flush_due(EntryView::Delete { key }, size),
{
}

/// A compaction merges all tables where there are at least two, from the last in
/// the list, the oldest, to the first.
pub proof fn law_compaction_takes_all_tables(tables: Seq<Seq<u8>>, i: int)
    ensures
        to_merge(tables) is Some <==> tables.len() >= 2,
        to_merge(tables) matches Some(names) ==> names.len() == tables.len(),
        to_merge(tables) matches Some(names) ==> (0 <= i < names.len() ==> names[i]
            == tables[tables.len() - 1 - i]),
{
}

/// What a read does next.
pub enum LookupView {
    Answer(Slot),
    InTable(nat),
}

/// The first step of a read.
pub open spec fn first_step(memory: Table, tables: nat, key: Seq<u8>) -> LookupView {
    if memory.contains_key(key) {
        LookupView::Answer(memory[key])
    } else if tables == 0 {
        LookupView::Answer(None)
    } else {
        LookupView::InTable(0)
    }
}

/// The step of a read that has the table at a position at hand.
pub open spec fn table_step(table: Table, at: nat, tables: nat, key: Seq<u8>) -> LookupView {
    if table.contains_key(key) {
        LookupView::Answer(table[key])
    } else if at + 1 < tables {
        LookupView::InTable(at + 1)
    } else {
        LookupView::Answer(None)
    }
}

/// What a read returns that goes on with the table at a position, when every
/// table that it asks for is handed to it.
pub open spec fn read_on(files: Seq<Seq<u8>>, at: nat, key: Seq<u8>) -> Slot
    decreases files.len() - at,
    when at < files.len()
{
    match table_step(sstable::read_table(files[at as int]), at, files.len(), key) {
        LookupView::Answer(slot) => slot,
        LookupView::InTable(next) => read_on(files, next, key),
    }
}

/// What a whole read returns.
pub open spec fn read_through(memory: Table, files: Seq<Seq<u8>>, key: Seq<u8>) -> Slot {
    match first_step(memory, files.len(), key) {
        LookupView::Answer(slot) => slot,
        LookupView::InTable(at) => read_on(files, at, key),
    }
}

// ---------------------------------------------------------------------------
// The store
// ---------------------------------------------------------------------------

/// A write that is to be appended to the log.
#[derive(Debug)]
pub struct LogWrite {
    entry: WalEntry,
    bytes: Vec<u8>,
}

impl LogWrite {
    #[verifier::type_invariant]
    spec fn inv(&self) -> bool {
        self.bytes@ == wal::record(self.entry@)
    }

    /// The entry to append.
    pub closed spec fn entry(&self) -> EntryView {
        self.entry@
    }

    /// The record to write at the end of the log.
    pub fn bytes(&self) -> (bytes: &Vec<u8>)
        ensures
            bytes@ == wal::record(self.entry()),
    {
        proof {
            use_type_invariant(self);
        }
        &self.bytes
    }
}

/// The file of a new table that is to be written.
#[derive(Debug)]
pub struct TableWrite {
    id: u64,
    name: Vec<u8>,
    bytes: Vec<u8>,
}

impl TableWrite {
    #[verifier::type_invariant]
    spec fn inv(&self) -> bool {
        self.name@ == naming::table_name(self.id as nat)
    }

    /// The number of the table.
    pub closed spec fn id(&self) -> nat {
        self.id as nat
    }

    /// What the file is to hold.
    pub closed spec fn contents(&self) -> Seq<u8> {
        self.bytes@
    }

    /// The name of the file.
    pub fn name(&self) -> (name: &Vec<u8>)
        ensures
            name@ == naming::table_name(self.id()),
    {
        proof {
            use_type_invariant(self);
        }
        &self.name
    }

    /// What the file is to hold.
    pub fn bytes(&self) -> (bytes: &Vec<u8>)
        ensures
            bytes@ == self.contents(),
    {
        &self.bytes
    }
}

/// The file of a table that replaces all others.
#[derive(Debug)]
pub struct MergedTable {
    table: TableWrite,
    replaces: Vec<Vec<u8>>,
}

impl MergedTable {
    /// The number of the table.
    pub closed spec fn id(&self) -> nat {
        self.table.id()
    }

    /// What the file is to hold.
    pub closed spec fn contents(&self) -> Seq<u8> {
        self.table.contents()
    }

    /// The names of the tables that it replaces.
    pub closed spec fn replaces(&self) -> Seq<Seq<u8>> {
        naming::names_view(self.replaces@)
    }

    /// The file to write.
    pub fn table(&self) -> (table: &TableWrite)
        ensures
            table.id() == self.id(),
            table.contents() == self.contents(),
    {
        &self.table
    }
}

/// What a read does next.
#[derive(Debug, PartialEq, Eq)]
pub enum Lookup {
    /// The value of the key, or nothing.
    Answer(Option<Vec<u8>>),
    /// The table at this position has to be read.
    InTable(usize),
}

impl View for Lookup {
    type V = LookupView;

    open spec fn view(&self) -> LookupView {
        match *self {
            Lookup::Answer(slot) => LookupView::Answer(sorted::slot_view(slot)),
            Lookup::InTable(at) => LookupView::InTable(at as nat),
        }
    }
}

/// A step of a read stands for itself: the answer, or the table to read.
pub proof fn law_lookup_stands_for_itself(step: Lookup)
    ensures
        match step {
            Lookup::Answer(Some(value)) => step@ == LookupView::Answer(Some(value@)),
            Lookup::Answer(None) => step@ == LookupView::Answer(None),
            Lookup::InTable(at) => step@ == LookupView::InTable(at as nat),
        },
{
}

/// A read is answered by memory where memory knows the key. Otherwise it asks for
/// the tables from the first to the last, as long as none knows the key, and finds
/// nothing behind the last.
pub proof fn law_read_goes_from_table_to_table(
    memory: Table,
    table: Table,
    at: nat,
    tables: nat,
    key: Seq<u8>,
)
    requires
        at < tables,
    ensures
        memory.contains_key(key) ==> first_step(memory, tables, key) == LookupView::Answer(
            memory[key],
        ),
        !memory.contains_key(key) ==> first_step(memory, tables, key) == LookupView::InTable(0),
        !memory.contains_key(key) ==> first_step(memory, 0, key) == LookupView::Answer(None),
        table.contains_key(key) ==> table_step(table, at, tables, key) == LookupView::Answer(
            table[key],
        ),
        !table.contains_key(key) && at + 1 < tables ==> table_step(table, at, tables, key)
            == LookupView::InTable(at + 1),
        !table.contains_key(key) && at + 1 == tables ==> table_step(table, at, tables, key)
            == LookupView::Answer(None),
{
}

/// The store.
#[derive(Debug)]
pub struct StorageEngine {
    wal: WriteAheadLog,
    memtable: MemTable,
    sstable_paths: Vec<Vec<u8>>,
    next_sst_id: u64,
}

impl View for StorageEngine {
    type V = StoreView;

    closed spec fn view(&self) -> StoreView {
        StoreView {
            memory: self.memtable@,
            size: self.memtable.size(),
            logged: self.wal.count(),
            tables: naming::names_view(self.sstable_paths@),
            next_id: self.next_sst_id as nat,
        }
    }
}

fn copy_slot(slot: &Option<Vec<u8>>) -> (copy: Option<Vec<u8>>)
    ensures
        sorted::slot_view(copy) == sorted::slot_view(*slot),
{
    match slot {
        Some(value) => Some(copy_bytes(value)),
        None => None,
    }
}

/// A new name in front of names that are newest first.
pub proof fn lemma_front(name: Seq<u8>, tables: Seq<Seq<u8>>, id: u64, next_id: nat)
    requires
        name == naming::table_name(id as nat),
        tables_ordered(tables, id as nat),
        id < next_id,
    ensures
        tables_ordered(seq![name] + tables, next_id),
{
    naming::law_table_name_roundtrip(id);
    let all = seq![name] + tables;
    assert forall|i: int, j: int| 0 <= i < j < all.len() implies !naming::newer(
        #[trigger] all[j],
        #[trigger] all[i],
    ) by {
        assert(all[j] == tables[j - 1]);
        if i > 0 {
            assert(all[i] == tables[i - 1]);
        }
    }
}

/// What a log holds is no larger than the log.
proof fn lemma_replayed_size(data: Seq<u8>)
    ensures
        total_size(wal::replayed(data)) <= data.len(),
    decreases data.len(),
{
    let n = wal::stated_len(data);
    if !(data.len() < 4 || n > wal::MAX_PAYLOAD || data.len() < 8 + n) {
        let payload = data.subrange(4, 4 + n as int);
        let rest = data.skip(8 + n as int);
        lemma_replayed_size(rest);
        if wal::dec_entry(payload) is Ok {
            let entry = wal::dec_entry(payload)->Ok_0.0;
            assert(entry_size(entry) <= n);
            lemma_size_of_joined(seq![entry], wal::replayed(rest));
            assert(seq![entry].drop_last() =~= Seq::empty());
            assert(total_size(Seq::empty()) == 0);
        }
    }
}

proof fn lemma_size_of_joined(a: Seq<EntryView>, b: Seq<EntryView>)
    ensures
        total_size(a + b) == total_size(a) + total_size(b),
    decreases b.len(),
{
    if b.len() == 0 {
        assert(a + b =~= a);
    } else {
        lemma_size_of_joined(a, b.drop_last());
        assert((a + b).drop_last() =~= a + b.drop_last());
    }
}

proof fn lemma_size_of_part(entries: Seq<EntryView>, n: int)
    requires
        0 <= n <= entries.len(),
    ensures
        total_size(entries.take(n)) <= total_size(entries),
{
    lemma_size_of_joined(entries.take(n), entries.skip(n));
    assert(entries.take(n) + entries.skip(n) =~= entries);
}

impl StorageEngine {
    #[verifier::type_invariant]
    spec fn inv(&self) -> bool {
        tables_ordered(self@.tables, self@.next_id)
    }

    /// Opens a store from the bytes of its log and the names of the files
    /// beside it: the log is replayed into the in-memory table, and the tables
    /// are put in order.
    pub fn open(log: &[u8], names: &Vec<Vec<u8>>) -> (store: Self)
        requires
            naming::highest_id(naming::tables_among(naming::names_view(names@))) < u64::MAX,
        ensures
            opened(store@, log@, naming::names_view(names@)),
    {
        let length: usize = log.len();
        let entries = WriteAheadLog::replay(log);
        let ghost views = wal::replayed(log@);
        proof {
            lemma_replayed_size(log@);
        }
        let mut memtable = MemTable::new();
        let mut i: usize = 0;
        while i < entries.len()
            invariant
                i <= entries@.len() == views.len(),
                views == wal::log_view(entries@),
                total_size(views) <= length,
                memtable@ == applied(views.take(i as int)),
                memtable.size() == total_size(views.take(i as int)),
            decreases entries@.len() - i,
        {
            proof {
                lemma_size_of_part(views, i + 1);
                assert(views.take(i + 1).drop_last() =~= views.take(i as int));
                assert(views[i as int] == entries@[i as int]@);
            }
            match &entries[i] {
                WalEntry::Put { key, value } => memtable.put(copy_bytes(key), copy_bytes(value)),
                WalEntry::Delete { key } => memtable.delete(copy_bytes(key)),
            }
            i = i + 1;
        }
        assert(views.take(i as int) =~= views);
        let mut tables: Vec<Vec<u8>> = Vec::new();
        let mut highest: u64 = 0;
        let ghost listed = naming::names_view(names@);
        let mut j: usize = 0;
        assert(listed.take(0) =~= Seq::empty());
        assert(naming::names_view(tables@) =~= Seq::empty());
        while j < names.len()
            invariant
                j <= names@.len() == listed.len(),
                listed == naming::names_view(names@),
                naming::newest_first(naming::names_view(tables@)),
                naming::names_view(tables@).to_multiset() == naming::tables_among(
                    listed.take(j as int),
                ).to_multiset(),
                highest == naming::highest_id(naming::tables_among(listed.take(j as int))),
            decreases names@.len() - j,
        {
            let ghost seen = naming::tables_among(listed.take(j as int));
            proof {
                assert(listed.take(j + 1).drop_last() =~= listed.take(j as int));
                assert(listed.take(j + 1).last() == names@[j as int]@);
            }
            if is_table_name(&names[j]) {
                match number_of_table(&names[j]) {
                    Some(id) => {
                        if id > highest {
                            highest = id;
                        }
                    },
                    None => {},
                }
                insert_by_age(&mut tables, copy_bytes(&names[j]));
                proof {
                    broadcast use vstd::seq_lib::group_to_multiset_ensures;

                    assert(seen.push(listed[j as int]).drop_last() =~= seen);
                }
            }
            j = j + 1;
        }
        assert(listed.take(j as int) =~= listed);
        proof {
            broadcast use vstd::seq_lib::group_to_multiset_ensures;

            let found = naming::tables_among(listed);
            let views = naming::names_view(tables@);
            naming::lemma_highest_id(found);
            assert forall|k: int| 0 <= k < views.len() implies (naming::table_id(
                #[trigger] views[k],
            ) matches Some(id) ==> id < highest + 1) by {
                assert(views.contains(views[k]));
                assert(found.to_multiset().count(views[k]) > 0);
                assert(found.contains(views[k]));
            }
        }
        StorageEngine {
            wal: WriteAheadLog::open(),
            memtable,
            sstable_paths: tables,
            next_sst_id: highest + 1,
        }
    }

    /// A write of a key-value pair, to be appended to the log.
    pub fn put(&self, key: Vec<u8>, value: Vec<u8>) -> (write: LogWrite)
        ensures
            write.entry() == (EntryView::Put { key: key@, value: value@ }),
    {
        let entry = WalEntry::Put { key, value };
        let bytes = self.wal.append(&entry);
        LogWrite { entry, bytes }
    }

    /// A delete of a key, to be appended to the log.
    pub fn delete(&self, key: Vec<u8>) -> (write: LogWrite)
        ensures
            write.entry() == (EntryView::Delete { key: key@ }),
    {
        let entry = WalEntry::Delete { key };
        let bytes = self.wal.append(&entry);
        LogWrite { entry, bytes }
    }

    /// Lets a write take effect that has been appended to the log. Says whether
    /// the in-memory table has to be flushed: after a write of a value that
    /// brings it to the threshold.
    pub fn logged(&mut self, write: LogWrite) -> (flush: bool)
        requires
            old(self)@.size + entry_size(write.entry()) <= usize::MAX,
            old(self)@.logged < u64::MAX,
        ensures
            final(self)@ == after_logged(old(self)@, write.entry()),
            flush == (write.entry() is Put && final(self)@.size >= MEMTABLE_FLUSH_THRESHOLD),
            flush == flush_due(write.entry(), final(self)@.size),
    {
        proof {
            use_type_invariant(&*self);
        }
        let mut memtable = MemTable::new();
        std::mem::swap(&mut memtable, &mut self.memtable);
        let mut log = WriteAheadLog::open();
        std::mem::swap(&mut log, &mut self.wal);
        log.appended();
        let flush = match write.entry {
            WalEntry::Put { key, value } => {
                memtable.put(key, value);
                memtable.size_bytes() >= MEMTABLE_FLUSH_THRESHOLD
            },
            WalEntry::Delete { key } => {
                memtable.delete(key);
                false
            },
        };
        self.memtable = memtable;
        self.wal = log;
        flush
    }

    /// Starts to read a key. The in-memory table answers where it knows the key.
    pub fn get(&self, key: &[u8]) -> (step: Lookup)
        ensures
            step@ == first_step(self@.memory, self@.tables.len(), key@),
    {
        match self.memtable.get(key) {
            Some(slot) => Lookup::Answer(copy_slot(slot)),
            None => if self.sstable_paths.len() == 0 {
                Lookup::Answer(None)
            } else {
                Lookup::InTable(0)
            },
        }
    }

    /// Goes on to read a key with the file of the table at a position.
    pub fn get_from_table(&self, key: &[u8], at: usize, file: &[u8]) -> (step: Lookup)
        requires
            at < self@.tables.len(),
        ensures
            step@ == table_step(
                sstable::read_table(file@),
                at as nat,
                self@.tables.len(),
                key@,
            ),
    {
        let table = SSTable::read(file);
        match table.get(key) {
            Some(slot) => Lookup::Answer(copy_slot(slot)),
            None => if at < self.sstable_paths.len() - 1 {
                Lookup::InTable(at + 1)
            } else {
                Lookup::Answer(None)
            },
        }
    }

    /// Starts to flush the in-memory table, unless it is empty: takes it out of
    /// memory and hands out the file of the table that replaces it.
    pub fn flush_memtable(&mut self) -> (write: Option<TableWrite>)
        requires
            old(self)@.memory != Map::<Seq<u8>, Slot>::empty() ==> old(self)@.next_id < u64::MAX,
        ensures
            match write {
                None => old(self)@.memory == Map::<Seq<u8>, Slot>::empty() && final(self)@ == old(
                    self,
                )@,
                Some(write) => {
                    &&& old(self)@.memory != Map::<Seq<u8>, Slot>::empty()
                    &&& write.id() == old(self)@.next_id
                    &&& tables_ordered(old(self)@.tables, write.id())
                    &&& is_file_of(write.contents(), old(self)@.memory)
                    &&& final(self)@ == after_drained(old(self)@)
                },
            },
    {
        proof {
            use_type_invariant(&*self);
        }
        if self.memtable.is_empty() {
            return None;
        }
        let mut memtable = MemTable::new();
        std::mem::swap(&mut memtable, &mut self.memtable);
        let id: u64 = self.next_sst_id;
        let name = make_table_name(id);
        self.next_sst_id = id + 1;
        let data = memtable.drain();
        let bytes = SSTable::write(&data);
        assert(sorted::ascending(data.entries()));
        Some(TableWrite { id, name, bytes })
    }

    /// Puts a table in front whose file has been written. It has to be newer
    /// than every table that the store has. The log may then be emptied.
    pub fn flushed(&mut self, write: TableWrite)
        requires
            write.id() < old(self)@.next_id,
            tables_ordered(old(self)@.tables, write.id()),
        ensures
            final(self)@ == after_flushed(old(self)@, write.id()),
    {
        proof {
            use_type_invariant(&*self);
            use_type_invariant(&write);
        }
        let ghost before = self@.tables;
        let ghost name = write.name@;
        let mut tables: Vec<Vec<u8>> = Vec::new();
        std::mem::swap(&mut tables, &mut self.sstable_paths);
        tables.insert(0, write.name);
        proof {
            assert(naming::names_view(tables@) =~= seq![name] + before);
            lemma_front(name, before, write.id, self@.next_id);
        }
        self.sstable_paths = tables;
    }

    /// Takes note that the log has been emptied.
    pub fn log_truncated(&mut self)
        ensures
            final(self)@ == after_truncated(old(self)@),
    {
        proof {
            use_type_invariant(&*self);
        }
        let mut log = WriteAheadLog::open();
        log.truncate();
        self.wal = log;
    }

    /// Starts to merge all tables into one, unless there are fewer than two:
    /// hands out the names of the tables to read, the oldest first.
    pub fn compact(&self) -> (names: Option<Vec<Vec<u8>>>)
        ensures
            match names {
                None => self@.tables.len() < 2,
                Some(names) => self@.tables.len() >= 2 && naming::names_view(names@)
                    == self@.tables.reverse(),
            },
            match names {
                None => to_merge(self@.tables) is None,
                Some(names) => to_merge(self@.tables) == Some(naming::names_view(names@)),
            },
    {
        if self.sstable_paths.len() < 2 {
            return None;
        }
        Some(oldest_first(&self.sstable_paths))
    }

    /// Merges table files, given the oldest first, and hands out the file of
    /// the table that replaces them. Newer values win; tombstones are left out.
    pub fn merge(&mut self, files: &Vec<Vec<u8>>) -> (merge: MergedTable)
        requires
            old(self)@.next_id < u64::MAX,
        ensures
            merge.id() == old(self)@.next_id,
            merge.replaces() == old(self)@.tables,
            is_file_of(
                merge.contents(),
                sorted::live(merged(tables_in(naming::names_view(files@)))),
            ),
            final(self)@ == after_merge(old(self)@),
    {
        proof {
            use_type_invariant(&*self);
        }
        let ghost tables = tables_in(naming::names_view(files@));
        let mut all = SortedMap::new();
        let mut i: usize = 0;
        while i < files.len()
            invariant
                i <= files@.len() == tables.len(),
                tables == tables_in(naming::names_view(files@)),
                all@ == merged(tables.take(i as int)),
            decreases files@.len() - i,
        {
            let table = SSTable::read(&files[i]);
            proof {
                assert(tables.take(i + 1).drop_last() =~= tables.take(i as int));
                assert(tables[i as int] == table@);
            }
            add_all(&mut all, &table);
            i = i + 1;
        }
        assert(tables.take(i as int) =~= tables);
        all.drop_tombstones();
        let id: u64 = self.next_sst_id;
        let name = make_table_name(id);
        self.next_sst_id = id + 1;
        let bytes = SSTable::write(&all);
        assert(sorted::ascending(all.entries()));
        let replaces = copy_names(&self.sstable_paths);
        MergedTable { table: TableWrite { id, name, bytes }, replaces }
    }

    /// Replaces all tables by the one that they were merged into, whose file
    /// has been written; no table may have come in between. Hands out the names
    /// of the files to remove, in the order in which to remove them: the oldest
    /// first, so that a tombstone goes after all that it hides.
    pub fn compacted(&mut self, merge: MergedTable) -> (old_names: Vec<Vec<u8>>)
        requires
            merge.id() < old(self)@.next_id,
            merge.replaces() == old(self)@.tables,
        ensures
            naming::names_view(old_names@) == old(self)@.tables.reverse(),
            final(self)@ == after_compacted(old(self)@, merge.id()),
    {
        let write = merge.table;
        proof {
            use_type_invariant(&*self);
            use_type_invariant(&write);
            let none: Seq<Seq<u8>> = Seq::empty();
            lemma_front(write.name@, none, write.id, self@.next_id);
            assert(seq![write.name@] + none =~= seq![write.name@]);
        }
        let ghost name = write.name@;
        let mut tables: Vec<Vec<u8>> = Vec::new();
        tables.push(write.name);
        assert(naming::names_view(tables@) =~= seq![name]);
        std::mem::swap(&mut tables, &mut self.sstable_paths);
        oldest_first(&tables)
    }

    /// The log.
    pub fn wal(&self) -> (log: &WriteAheadLog)
        ensures
            log.count() == self@.logged,
    {
        &self.wal
    }

    /// The number of the next table.
    pub fn next_sst_id(&self) -> (id: u64)
        ensures
            id == self@.next_id,
    {
        self.next_sst_id
    }

    /// The in-memory table.
    pub fn memtable(&self) -> (table: &MemTable)
        ensures
            table@ == self@.memory,
            table.size() == self@.size,
    {
        &self.memtable
    }

    /// The names of the tables on disk, the newest first.
    pub fn sstable_paths(&self) -> (names: &Vec<Vec<u8>>)
        ensures
            naming::names_view(names@) == self@.tables,
            naming::newest_first(self@.tables),
    {
        proof {
            use_type_invariant(self);
        }
        &self.sstable_paths
    }
}

/// Names that are newest first, the other way round.
fn oldest_first(names: &Vec<Vec<u8>>) -> (reversed: Vec<Vec<u8>>)
    ensures
        naming::names_view(reversed@) == naming::names_view(names@).reverse(),
{
    let mut reversed: Vec<Vec<u8>> = Vec::new();
    let mut i: usize = names.len();
    while i > 0
        invariant
            i <= names@.len(),
            reversed@.len() == names@.len() - i,
            forall|j: int|
                0 <= j < reversed@.len() ==> (#[trigger] reversed@[j])@ == names@[names@.len() - 1
                    - j]@,
        decreases i,
    {
        i = i - 1;
        reversed.push(copy_bytes(&names[i]));
    }
    assert(naming::names_view(reversed@) =~= naming::names_view(names@).reverse());
    reversed
}

fn copy_names(names: &Vec<Vec<u8>>) -> (copies: Vec<Vec<u8>>)
    ensures
        naming::names_view(copies@) == naming::names_view(names@),
{
    let mut copies: Vec<Vec<u8>> = Vec::new();
    let mut i: usize = 0;
    while i < names.len()
        invariant
            i <= names@.len(),
            copies@.len() == i,
            forall|j: int| 0 <= j < i ==> (#[trigger] copies@[j])@ == names@[j]@,
        decreases names@.len() - i,
    {
        copies.push(copy_bytes(&names[i]));
        i = i + 1;
    }
    assert(naming::names_view(copies@) =~= naming::names_view(names@));
    copies
}

/// Inserts every entry of a map into another.
fn add_all(all: &mut SortedMap, table: &SortedMap)
    ensures
        final(all)@ == old(all)@.union_prefer_right(table@),
{
    let entries = table.as_entries();
    let ghost rows = table.entries();
    let mut i: usize = 0;
    assert(all@ =~= old(all)@.union_prefer_right(sorted::table_of(rows.take(0))));
    while i < entries.len()
        invariant
            i <= entries@.len() == rows.len(),
            rows == sorted::entries_view(entries@),
            all@ == old(all)@.union_prefer_right(sorted::table_of(rows.take(i as int))),
        decreases entries@.len() - i,
    {
        let ghost before = all@;
        all.insert(copy_bytes(&entries[i].0), copy_slot(&entries[i].1));
        proof {
            let row = rows[i as int];
            assert(rows.take(i + 1).drop_last() =~= rows.take(i as int));
            assert(before.insert(row.0, row.1) =~= old(all)@.union_prefer_right(
                sorted::table_of(rows.take(i + 1)),
            ));
        }
        i = i + 1;
    }
    assert(rows.take(i as int) =~= rows);
}

} // verus!
