//! The table of operation counts that a whole dump gives.

use vstd::prelude::*;
use vstd::string::*;
use crate::binlog::{spec_classify, BinlogRecord, RecordView};
use crate::tablestats::{
    records_view,
    stats_of,
    tables_seen,
    tablestats_from_binlog_records,
    TableKey,
    TableStats,
    TableStatsEntry,
};
use crate::text::{decimal_string, decimal_text, texts};

verus! {

/// The headers among `lines`, in their order.
pub open spec fn spec_records(lines: Seq<Seq<char>>) -> Seq<RecordView>
    decreases lines.len(),
{
    if lines.len() == 0 {
        Seq::empty()
    } else {
        let before = spec_records(lines.drop_last());
        match spec_classify(lines.last()) {
            Some(record) => before.push(record),
            None => before,
        }
    }
}

/// Classifies every line and returns the headers found, in their order. Lines that are
/// no headers are passed over.
pub fn binlog_records_from_lines(lines: &Vec<String>) -> (r: Vec<BinlogRecord>)
    ensures
        records_view(r@) == spec_records(texts(lines@)),
{
    let ghost all = texts(lines@);
    let mut records: Vec<BinlogRecord> = Vec::new();
    let mut i: usize = 0;
    assert(records_view(records@) =~= spec_records(all.take(0)));
    while i < lines.len()
        invariant
            i <= lines@.len(),
            all == texts(lines@),
            records_view(records@) == spec_records(all.take(i as int)),
        decreases lines@.len() - i,
    {
        let ghost before = records_view(records@);
        assert(all.take(i + 1).drop_last() =~= all.take(i as int));
        assert(all.take(i + 1).last() == lines@[i as int]@);
        match BinlogRecord::try_from(lines[i].as_str()) {
            Ok(record) => {
                records.push(record);
                assert(records_view(records@) =~= before.push(record@));
            },
            Err(_) => {},
        }
        i = i + 1;
    }
    assert(all.take(i as int) =~= all);
    records
}

/// The first line of the table of counts.
pub open spec fn csv_header() -> Seq<char> {
    "schema_name,table_name,inserts,updates,deletes"@
}

/// The line of the table of counts for one table: the two names, then the inserts, the
/// updates and the deletes, with commas between.
pub open spec fn spec_csv_row(table: TableKey, stats: TableStats) -> Seq<char> {
    table.0 + ","@ + table.1 + ","@ + decimal_text(stats.inserts as nat) + ","@ + decimal_text(
        stats.updates as nat,
    ) + ","@ + decimal_text(stats.deletes as nat)
}

/// Writes the line of the table of counts for one table.
pub fn csv_row(entry: &TableStatsEntry) -> (r: String)
    ensures
        r@ == spec_csv_row((entry.schema_name@, entry.table_name@), entry.stats),
{
    let mut r = String::from_str(entry.schema_name.as_str());
    r.append(",");
    r.append(entry.table_name.as_str());
    r.append(",");
    r.append(decimal_string(entry.stats.inserts).as_str());
    r.append(",");
    r.append(decimal_string(entry.stats.updates).as_str());
    r.append(",");
    r.append(decimal_string(entry.stats.deletes).as_str());
    r
}

/// The table of counts for `records`: the header line, then one line per table in the
/// order in which the tables first occur.
pub open spec fn spec_stats_lines(records: Seq<RecordView>) -> Seq<Seq<char>> {
    seq![csv_header()] + Seq::new(
        tables_seen(records).len(),
        |i: int| spec_csv_row(tables_seen(records)[i], stats_of(records, tables_seen(records)[i])),
    )
}

/// What the counting of a whole dump gives.
#[derive(Debug)]
pub struct StatsReport {
    /// The number of headers found.
    pub records_parsed: usize,
    /// The table of counts, line by line, the header line first.
    pub lines: Vec<String>,
}

/// Counts the inserts, updates and deletes of every table in a whole dump.
///
/// Reads `lines` in order, passes over what is no header, and returns the number of
/// headers with the table of counts.
pub fn stats(lines: &Vec<String>) -> (r: StatsReport)
    ensures
        r.records_parsed == spec_records(texts(lines@)).len(),
        texts(r.lines@) == spec_stats_lines(spec_records(texts(lines@))),
{
    let binlog_records = binlog_records_from_lines(lines);
    let ghost records = spec_records(texts(lines@));
    assert(records_view(binlog_records@).len() == binlog_records@.len());
    let table_stats = tablestats_from_binlog_records(binlog_records.as_slice());
    let rows = table_stats.rows();
    let mut out: Vec<String> = Vec::new();
    out.push(String::from_str("schema_name,table_name,inserts,updates,deletes"));
    let mut i: usize = 0;
    assert(texts(out@) =~= spec_stats_lines(records).take(1));
    while i < rows.len()
        invariant
            i <= rows@.len(),
            rows@.len() == tables_seen(records).len(),
            forall|j: int|
                0 <= j < rows@.len() ==> (#[trigger] rows@[j].schema_name@, rows@[j].table_name@)
                    == tables_seen(records)[j] && rows@[j].stats == stats_of(
                    records,
                    tables_seen(records)[j],
                ),
            texts(out@) == spec_stats_lines(records).take(i + 1),
        decreases rows@.len() - i,
    {
        let ghost before = texts(out@);
        let row = csv_row(&rows[i]);
        assert((rows@[i as int].schema_name@, rows@[i as int].table_name@) == tables_seen(
            records,
        )[i as int]);
        out.push(row);
        assert(texts(out@) =~= before.push(row@));
        assert(spec_stats_lines(records).take(i + 2) =~= spec_stats_lines(records).take(
            i + 1,
        ).push(spec_stats_lines(records)[i + 1]));
        i = i + 1;
    }
    assert(spec_stats_lines(records).take(i + 1) =~= spec_stats_lines(records));
    StatsReport { records_parsed: binlog_records.len(), lines: out }
}

} // verus!
