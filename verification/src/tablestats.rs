//! Counts of inserts, updates and deletes per table.

use vstd::prelude::*;
use vstd::string::*;
use crate::binlog::{BinlogOperation, BinlogRecord, RecordView};
use crate::text::{decimal_string, decimal_text, same_text};

verus! {

/// How often each kind of operation was seen on one table.
#[derive(Clone, Copy, PartialEq, Eq, Debug, Structural)]
pub struct TableStats {
    pub deletes: usize,
    pub inserts: usize,
    pub updates: usize,
}

impl Default for TableStats {
    /// Nothing seen yet.
    fn default() -> (r: TableStats)
        ensures
            r == (TableStats { deletes: 0, inserts: 0, updates: 0 }),
    {
        TableStats { deletes: 0, inserts: 0, updates: 0 }
    }
}

impl TableStats {
    /// The count kept for operations of kind `op`.
    pub open spec fn count(self, op: BinlogOperation) -> usize {
        match op {
            BinlogOperation::Delete => self.deletes,
            BinlogOperation::Update => self.updates,
            BinlogOperation::Insert => self.inserts,
        }
    }

    /// These counts with one more operation of kind `op`.
    pub open spec fn bumped(self, op: BinlogOperation) -> TableStats {
        match op {
            BinlogOperation::Delete => TableStats { deletes: (self.deletes + 1) as usize, ..self },
            BinlogOperation::Update => TableStats { updates: (self.updates + 1) as usize, ..self },
            BinlogOperation::Insert => TableStats { inserts: (self.inserts + 1) as usize, ..self },
        }
    }

    /// The counts in words.
    pub open spec fn spec_to_string(self) -> Seq<char> {
        decimal_text(self.deletes as nat) + " deletes, "@ + decimal_text(self.inserts as nat)
            + " inserts, "@ + decimal_text(self.updates as nat) + " updates"@
    }

    /// Writes the counts in words, as in `3 deletes, 1 inserts, 0 updates`.
    pub fn to_string(&self) -> (r: String)
        ensures
            r@ == self.spec_to_string(),
    {
        let mut r = decimal_string(self.deletes);
        r.append(" deletes, ");
        r.append(decimal_string(self.inserts).as_str());
        r.append(" inserts, ");
        r.append(decimal_string(self.updates).as_str());
        r.append(" updates");
        r
    }

    /// Counts one more operation of kind `op`.
    pub fn bump(self, op: BinlogOperation) -> (r: TableStats)
        requires
            self.count(op) < usize::MAX,
        ensures
            r == self.bumped(op),
    {
        match op {
            BinlogOperation::Delete => TableStats { deletes: self.deletes + 1, ..self },
            BinlogOperation::Update => TableStats { updates: self.updates + 1, ..self },
            BinlogOperation::Insert => TableStats { inserts: self.inserts + 1, ..self },
        }
    }
}

/// The counts of one table.
#[derive(Debug)]
pub struct TableStatsEntry {
    pub schema_name: String,
    pub table_name: String,
    pub stats: TableStats,
}

/// A table as the counts tell it: the name of its schema and its own.
pub type TableKey = (Seq<char>, Seq<char>);

/// The counts of every table seen, in the order in which the tables were first seen.
#[derive(Debug)]
pub struct TableStatsMap {
    entries: Vec<TableStatsEntry>,
}

/// The counts that stand for a table that was seen once, with an operation of kind `op`,
/// or that were `before` and are now one higher.
pub open spec fn counted(before: Option<TableStats>, op: BinlogOperation) -> TableStats {
    match before {
        Some(stats) => stats.bumped(op),
        None => (TableStats { deletes: 0, inserts: 0, updates: 0 }).bumped(op),
    }
}

impl View for TableStatsMap {
    type V = Map<TableKey, TableStats>;

    /// The counts of each table.
    closed spec fn view(&self) -> Map<TableKey, TableStats> {
        Map::new(|k: TableKey| self.slot_of(k) >= 0, |k: TableKey| self.entries@[self.slot_of(k)].stats)
    }
}

impl TableStatsMap {
    /// The tables, in the order in which they were first seen.
    pub closed spec fn tables(&self) -> Seq<TableKey> {
        Seq::new(
            self.entries@.len(),
            |i: int| (self.entries@[i].schema_name@, self.entries@[i].table_name@),
        )
    }

    /// Some place in the list where the table `k` stands, or -1 where it stands nowhere.
    spec fn slot_of(&self, k: TableKey) -> int {
        if exists|i: int| 0 <= i < self.tables().len() && self.tables()[i] == k {
            choose|i: int| 0 <= i < self.tables().len() && self.tables()[i] == k
        } else {
            -1
        }
    }

    /// No table stands in the list twice.
    pub closed spec fn wf(&self) -> bool {
        self.tables().no_duplicates()
    }

    proof fn lemma_slot(&self, i: int)
        requires
            self.wf(),
            0 <= i < self.entries@.len(),
        ensures
            self.slot_of(self.tables()[i]) == i,
            self@.contains_key(self.tables()[i]),
            self@[self.tables()[i]] == self.entries@[i].stats,
    {
        let k = self.tables()[i];
        let j = self.slot_of(k);
        assert(0 <= j < self.tables().len() && self.tables()[j] == k);
    }

    proof fn lemma_present(&self, k: TableKey)
        requires
            self@.contains_key(k),
        ensures
            0 <= self.slot_of(k) < self.entries@.len(),
            self.tables()[self.slot_of(k)] == k,
            self@[k] == self.entries@[self.slot_of(k)].stats,
    {
    }

    /// The tables with counts are the tables of the list.
    pub proof fn lemma_tables(&self)
        requires
            self.wf(),
        ensures
            self.tables().no_duplicates(),
            forall|k: TableKey| self@.contains_key(k) <==> self.tables().contains(k),
    {
        assert forall|k: TableKey| self@.contains_key(k) <==> self.tables().contains(k) by {
            if self@.contains_key(k) {
                self.lemma_present(k);
            }
            if self.tables().contains(k) {
                let i = choose|i: int| 0 <= i < self.tables().len() && self.tables()[i] == k;
                self.lemma_slot(i);
            }
        }
    }

    /// Counts for no table.
    pub fn new() -> (r: TableStatsMap)
        ensures
            r.wf(),
            r@ == Map::<TableKey, TableStats>::empty(),
            r.tables() == Seq::<TableKey>::empty(),
    {
        let r = TableStatsMap { entries: Vec::new() };
        assert(r@ =~= Map::<TableKey, TableStats>::empty());
        assert(r.tables() =~= Seq::<TableKey>::empty());
        r
    }

    /// Where the table stands in the list.
    fn position(&self, schema_name: &str, table_name: &str) -> (r: Option<usize>)
        requires
            self.wf(),
        ensures
            match r {
                Some(i) => i < self.entries@.len() && self.tables()[i as int] == (
                    schema_name@,
                    table_name@,
                ) && self@.contains_key((schema_name@, table_name@)) && self@[(
                    schema_name@,
                    table_name@,
                )] == self.entries@[i as int].stats,
                None => !self@.contains_key((schema_name@, table_name@))
                    && !self.tables().contains((schema_name@, table_name@)),
            },
    {
        let mut i: usize = 0;
        while i < self.entries.len()
            invariant
                self.wf(),
                i <= self.entries@.len(),
                forall|j: int| 0 <= j < i ==> self.tables()[j] != (schema_name@, table_name@),
            decreases self.entries@.len() - i,
        {
            let entry = &self.entries[i];
            if same_text(entry.schema_name.as_str(), schema_name) && same_text(
                entry.table_name.as_str(),
                table_name,
            ) {
                proof {
                    self.lemma_slot(i as int);
                }
                return Some(i);
            }
            i = i + 1;
        }
        None
    }

    /// The counts of a table, if it was seen.
    pub fn get(&self, schema_name: &str, table_name: &str) -> (r: Option<TableStats>)
        requires
            self.wf(),
        ensures
            r == if self@.contains_key((schema_name@, table_name@)) {
                Some(self@[(schema_name@, table_name@)])
            } else {
                None
            },
    {
        match self.position(schema_name, table_name) {
            Some(i) => Some(self.entries[i].stats),
            None => None,
        }
    }

    /// The counts of every table, in the order in which the tables were first seen.
    pub fn rows(&self) -> (r: &Vec<TableStatsEntry>)
        requires
            self.wf(),
        ensures
            r@.len() == self.tables().len(),
            forall|i: int|
                0 <= i < r@.len() ==> (#[trigger] r@[i].schema_name@, r@[i].table_name@)
                    == self.tables()[i] && self@.contains_key(self.tables()[i]) && r@[i].stats
                    == self@[self.tables()[i]],
    {
        proof {
            assert forall|i: int| 0 <= i < self.entries@.len() implies (
                #[trigger] self.entries@[i].schema_name@,
                self.entries@[i].table_name@,
            ) == self.tables()[i] && self@.contains_key(self.tables()[i])
                && self.entries@[i].stats == self@[self.tables()[i]] by {
                self.lemma_slot(i);
            }
        }
        &self.entries
    }

    /// Counts one operation of kind `op` on a table. A table seen for the first time
    /// joins the list at its end, with all its counts at zero but this one.
    pub fn add(&mut self, schema_name: &str, table_name: &str, op: BinlogOperation)
        requires
            old(self).wf(),
            old(self)@.contains_key((schema_name@, table_name@)) ==> old(self)@[(
                schema_name@,
                table_name@,
            )].count(op) < usize::MAX,
        ensures
            final(self).wf(),
            final(self)@ == old(self)@.insert(
                (schema_name@, table_name@),
                counted(old(self)@.get((schema_name@, table_name@)), op),
            ),
            final(self).tables() == if old(self).tables().contains((schema_name@, table_name@)) {
                old(self).tables()
            } else {
                old(self).tables().push((schema_name@, table_name@))
            },
    {
        let ghost before = *self;
        let ghost key = (schema_name@, table_name@);
        let ghost mut pos: int = 0;
        match self.position(schema_name, table_name) {
            Some(i) => {
                proof {
                    pos = i as int;
                }
                let stats = self.entries[i].stats.bump(op);
                self.entries[i].stats = stats;
            },
            None => {
                proof {
                    pos = before.entries@.len() as int;
                }
                let stats = TableStats::default().bump(op);
                self.entries.push(
                    TableStatsEntry {
                        schema_name: String::from_str(schema_name),
                        table_name: String::from_str(table_name),
                        stats,
                    },
                );
            },
        }
        proof {
            let after = *self;
            let value = counted(before@.get(key), op);
            assert(after.tables() =~= if before.tables().contains(key) {
                before.tables()
            } else {
                before.tables().push(key)
            });
            assert(after.wf());
            after.lemma_slot(pos);
            assert forall|k: TableKey|
                after@.contains_key(k) == #[trigger] before@.insert(key, value).contains_key(k)
                    && (after@.contains_key(k) ==> after@[k] == before@.insert(key, value)[k]) by {
                if k != key {
                    if before@.contains_key(k) {
                        before.lemma_present(k);
                        let j = before.slot_of(k);
                        before.lemma_slot(j);
                        after.lemma_slot(j);
                    }
                    if after@.contains_key(k) {
                        after.lemma_present(k);
                        let j = after.slot_of(k);
                        after.lemma_slot(j);
                        before.lemma_slot(j);
                    }
                }
            }
            assert(after@ =~= before@.insert(key, value));
        }
    }
}

/// The table that a record is about.
pub open spec fn table_of(record: RecordView) -> TableKey {
    (record.schema_name, record.table_name)
}

/// How many of `records` are operations of kind `op` on the table `table`.
pub open spec fn count_records(records: Seq<RecordView>, table: TableKey, op: BinlogOperation) -> nat
    decreases records.len(),
{
    if records.len() == 0 {
        0
    } else {
        count_records(records.drop_last(), table, op) + if table_of(records.last()) == table
            && records.last().op == op {
            1nat
        } else {
            0nat
        }
    }
}

/// The tables that `records` are about, each once, in the order in which they first occur.
pub open spec fn tables_seen(records: Seq<RecordView>) -> Seq<TableKey>
    decreases records.len(),
{
    if records.len() == 0 {
        Seq::empty()
    } else {
        let before = tables_seen(records.drop_last());
        if before.contains(table_of(records.last())) {
            before
        } else {
            before.push(table_of(records.last()))
        }
    }
}

/// The content of each record of `v`.
pub open spec fn records_view(v: Seq<BinlogRecord>) -> Seq<RecordView> {
    Seq::new(v.len(), |i: int| v[i]@)
}

/// The counts of `table` among `records`.
pub open spec fn stats_of(records: Seq<RecordView>, table: TableKey) -> TableStats {
    TableStats {
        deletes: count_records(records, table, BinlogOperation::Delete) as usize,
        inserts: count_records(records, table, BinlogOperation::Insert) as usize,
        updates: count_records(records, table, BinlogOperation::Update) as usize,
    }
}

/// No more records are counted than there are.
pub proof fn lemma_count_records_bound(
    records: Seq<RecordView>,
    table: TableKey,
    op: BinlogOperation,
)
    ensures
        count_records(records, table, op) <= records.len(),
    decreases records.len(),
{
    if records.len() > 0 {
        lemma_count_records_bound(records.drop_last(), table, op);
    }
}

/// A table is among the tables seen exactly when a record is about it.
pub proof fn lemma_tables_seen(records: Seq<RecordView>, table: TableKey)
    ensures
        tables_seen(records).contains(table) <==> exists|i: int|
            0 <= i < records.len() && table_of(#[trigger] records[i]) == table,
        tables_seen(records).no_duplicates(),
    decreases records.len(),
{
    if records.len() > 0 {
        let shorter = records.drop_last();
        let before = tables_seen(shorter);
        lemma_tables_seen(shorter, table);
        let last = records.len() - 1;
        if before.contains(table) {
            let i = choose|i: int| 0 <= i < shorter.len() && table_of(#[trigger] shorter[i]) == table;
            assert(table_of(records[i]) == table);
            if !before.contains(table_of(records.last())) {
                let j = choose|j: int| 0 <= j < before.len() && before[j] == table;
                assert(before.push(table_of(records.last()))[j] == table);
            }
        }
        if table_of(records[last]) == table {
            if !before.contains(table) {
                assert(before.push(table)[before.len() as int] == table);
            }
        }
        if tables_seen(records).contains(table) && table_of(records[last]) != table {
            let j = choose|j: int| 0 <= j < tables_seen(records).len() && tables_seen(records)[j] == table;
            assert(before[j] == table);
        }
        if exists|i: int| 0 <= i < records.len() && table_of(#[trigger] records[i]) == table {
            let i = choose|i: int| 0 <= i < records.len() && table_of(#[trigger] records[i]) == table;
            if i < last {
                assert(table_of(shorter[i]) == table);
            }
        }
    }
}

/// Counts the operations of every table that `binlog_records` are about.
///
/// The result holds a table exactly when a record is about it, in the order in which
/// the tables first occur, and for each table the number of its inserts, updates and
/// deletes among the records.
pub fn tablestats_from_binlog_records(binlog_records: &[BinlogRecord]) -> (r: TableStatsMap)
    ensures
        r.wf(),
        r.tables() == tables_seen(records_view(binlog_records@)),
        forall|table: TableKey|
            r@.contains_key(table) <==> tables_seen(records_view(binlog_records@)).contains(
                table,
            ),
        forall|table: TableKey| #[trigger]
            r@.contains_key(table) ==> r@[table] == stats_of(
                records_view(binlog_records@),
                table,
            ),
{
    let ghost all = records_view(binlog_records@);
    let mut acc = TableStatsMap::new();
    let mut i: usize = 0;
    while i < binlog_records.len()
        invariant
            i <= binlog_records@.len(),
            all == records_view(binlog_records@),
            acc.wf(),
            acc.tables() == tables_seen(all.take(i as int)),
            forall|table: TableKey| #[trigger]
                acc@.contains_key(table) ==> acc@[table] == stats_of(all.take(i as int), table),
        decreases binlog_records@.len() - i,
    {
        let record = &binlog_records[i];
        let ghost seen = all.take(i as int);
        let ghost grown = all.take(i + 1);
        let ghost key = table_of(record@);
        let ghost before = acc;
        proof {
            assert(grown.drop_last() =~= seen);
            assert(grown.last() == record@);
            acc.lemma_tables();
            lemma_count_records_bound(seen, key, record.op);
        }
        acc.add(record.schema_name.as_str(), record.table_name.as_str(), record.op);
        proof {
            assert forall|table: TableKey| #[trigger] acc@.contains_key(table) implies acc@[table]
                == stats_of(grown, table) by {
                lemma_count_records_bound(grown, table, BinlogOperation::Delete);
                lemma_count_records_bound(grown, table, BinlogOperation::Insert);
                lemma_count_records_bound(grown, table, BinlogOperation::Update);
                if table == key {
                    if !before@.contains_key(key) {
                        lemma_tables_seen(seen, key);
                        lemma_no_records_no_count(seen, key, BinlogOperation::Delete);
                        lemma_no_records_no_count(seen, key, BinlogOperation::Insert);
                        lemma_no_records_no_count(seen, key, BinlogOperation::Update);
                    }
                }
            }
        }
        i = i + 1;
    }
    proof {
        assert(all.take(i as int) =~= all);
        acc.lemma_tables();
    }
    acc
}

/// Where no record is about a table, none is counted for it.
pub proof fn lemma_no_records_no_count(
    records: Seq<RecordView>,
    table: TableKey,
    op: BinlogOperation,
)
    requires
        forall|i: int| 0 <= i < records.len() ==> table_of(#[trigger] records[i]) != table,
    ensures
        count_records(records, table, op) == 0,
    decreases records.len(),
{
    if records.len() > 0 {
        let shorter = records.drop_last();
        assert forall|i: int| 0 <= i < shorter.len() implies table_of(#[trigger] shorter[i])
            != table by {
            assert(shorter[i] == records[i]);
        }
        lemma_no_records_no_count(shorter, table, op);
        assert(table_of(records[records.len() - 1]) != table);
    }
}

/// Counting never lowers a count: after one more operation on some table, every table
/// that had counts has them still, and none of them is lower.
pub proof fn lemma_counts_never_fall(
    before: Map<TableKey, TableStats>,
    table: TableKey,
    op: BinlogOperation,
    other: TableKey,
    kind: BinlogOperation,
)
    requires
        before.contains_key(other),
        before.contains_key(table) ==> before[table].count(op) < usize::MAX,
    ensures
        before.insert(table, counted(before.get(table), op)).contains_key(other),
        before.insert(table, counted(before.get(table), op))[other].count(kind)
            >= before[other].count(kind),
{
}

} // verus!
