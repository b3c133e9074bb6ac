//! The search for empty updates.
//!
//! Some tools rewrite an unchanged row as a delete followed by an insert. The analysis
//! reads the dump line by line, assembles the inserts and deletes of one table, and
//! pairs them row by row: a pair whose values agree outside the key columns is an empty
//! update.

use vstd::prelude::*;
use vstd::string::*;
use crate::assembler::{
    spec_finish,
    spec_push,
    AssemblerView,
    PhaseView,
    RecordAssembler,
};
use crate::binlog::BinlogOperation;
use crate::error::BinlogError;
use crate::matcher::{spec_observe, EmptyUpdateMatcher, MatchOutcome};
use crate::row::{EventView, RowChangeEvent};
use crate::text::{decimal_string, decimal_text, texts};

verus! {

/// What a run found.
#[derive(Clone, Copy, PartialEq, Eq, Debug, Structural)]
pub struct Summary {
    /// Lines read.
    pub lines: usize,
    /// Headers of an insert on the table.
    pub inserts: usize,
    /// Headers of a delete on the table.
    pub deletes: usize,
    /// Pairs resolved as empty updates.
    pub empty_updates: usize,
    /// Pairs resolved as real updates.
    pub other_updates: usize,
    /// Rows whose change was still pending at the end.
    pub remaining: usize,
}

impl Summary {
    /// The one line that reports the run.
    pub open spec fn spec_to_string(self) -> Seq<char> {
        "lines "@ + decimal_text(self.lines as nat) + ", inserts "@ + decimal_text(
            self.inserts as nat,
        ) + ", deletes "@ + decimal_text(self.deletes as nat) + ", empty updates: "@
            + decimal_text(self.empty_updates as nat) + ", other updates: "@ + decimal_text(
            self.other_updates as nat,
        ) + " (remaining "@ + decimal_text(self.remaining as nat) + ")"@
    }

    /// Writes the one line that reports the run, as in
    /// `lines 8, inserts 1, deletes 1, empty updates: 1, other updates: 0 (remaining 0)`.
    pub fn to_string(&self) -> (r: String)
        ensures
            r@ == self.spec_to_string(),
    {
        let mut r = String::from_str("lines ");
        r.append(decimal_string(self.lines).as_str());
        r.append(", inserts ");
        r.append(decimal_string(self.inserts).as_str());
        r.append(", deletes ");
        r.append(decimal_string(self.deletes).as_str());
        r.append(", empty updates: ");
        r.append(decimal_string(self.empty_updates).as_str());
        r.append(", other updates: ");
        r.append(decimal_string(self.other_updates).as_str());
        r.append(" (remaining ");
        r.append(decimal_string(self.remaining).as_str());
        r.append(")");
        r
    }
}

/// The mathematical content of an [`EmptyUpdateAnalysis`].
pub struct AnalysisView {
    pub assembler: AssemblerView,
    pub key_columns: Seq<usize>,
    pub pending: Map<Seq<Seq<char>>, EventView>,
    pub lines: nat,
    pub inserts: nat,
    pub deletes: nat,
    pub empty_updates: nat,
    pub other_updates: nat,
}

/// The analysis before its first line.
pub open spec fn spec_start(table_name: Seq<char>, ignore: Seq<usize>, key_columns: Seq<usize>) -> AnalysisView {
    AnalysisView {
        assembler: AssemblerView { table_name, ignore, phase: PhaseView::Idle },
        key_columns,
        pending: Map::empty(),
        lines: 0,
        inserts: 0,
        deletes: 0,
        empty_updates: 0,
        other_updates: 0,
    }
}

/// The analysis after a completed row change, if there is one, was handed to the
/// matcher: a resolved pair is counted, a missing key column ends the run.
pub open spec fn spec_settle(a: AnalysisView, completed: Option<EventView>) -> Result<
    AnalysisView,
    BinlogError,
> {
    match completed {
        None => Ok(a),
        Some(event) => {
            let (pending, outcome) = spec_observe(a.pending, a.key_columns, event);
            match outcome {
                MatchOutcome::MissingKeyColumn => Err(BinlogError::MissingKeyColumn),
                MatchOutcome::EmptyUpdate => Ok(
                    AnalysisView { pending, empty_updates: a.empty_updates + 1, ..a },
                ),
                MatchOutcome::RealUpdate => Ok(
                    AnalysisView { pending, other_updates: a.other_updates + 1, ..a },
                ),
                MatchOutcome::Stored => Ok(AnalysisView { pending, ..a }),
            }
        },
    }
}

/// The analysis after the header that a line opened, if it opened one, was counted.
pub open spec fn spec_count_opened(a: AnalysisView, opened: Option<BinlogOperation>) -> AnalysisView {
    match opened {
        Some(BinlogOperation::Insert) => AnalysisView { inserts: a.inserts + 1, ..a },
        Some(BinlogOperation::Delete) => AnalysisView { deletes: a.deletes + 1, ..a },
        _ => a,
    }
}

/// One step of the analysis: the assembler reads the line, the row change that the line
/// completed is handed to the matcher, and the line and the header it opened are counted.
pub open spec fn spec_feed(a: AnalysisView, line: Seq<char>) -> Result<AnalysisView, BinlogError> {
    match spec_push(a.assembler, line) {
        Err(e) => Err(e),
        Ok((assembler, step)) => match spec_settle(a, step.completed) {
            Err(e) => Err(e),
            Ok(b) => Ok(
                spec_count_opened(AnalysisView { assembler, lines: a.lines + 1, ..b }, step.opened),
            ),
        },
    }
}

/// The analysis after all of `lines`, or the error that ended the run.
pub open spec fn spec_feed_all(a: AnalysisView, lines: Seq<Seq<char>>) -> Result<
    AnalysisView,
    BinlogError,
>
    decreases lines.len(),
{
    if lines.len() == 0 {
        Ok(a)
    } else {
        match spec_feed_all(a, lines.drop_last()) {
            Err(e) => Err(e),
            Ok(mid) => spec_feed(mid, lines.last()),
        }
    }
}

/// The mathematical content of a [`Summary`].
pub struct SummaryView {
    pub lines: nat,
    pub inserts: nat,
    pub deletes: nat,
    pub empty_updates: nat,
    pub other_updates: nat,
    pub remaining: nat,
}

impl View for Summary {
    type V = SummaryView;

    open spec fn view(&self) -> SummaryView {
        SummaryView {
            lines: self.lines as nat,
            inserts: self.inserts as nat,
            deletes: self.deletes as nat,
            empty_updates: self.empty_updates as nat,
            other_updates: self.other_updates as nat,
            remaining: self.remaining as nat,
        }
    }
}

/// What the end of the input makes of the analysis: the row change whose fields were
/// being gathered is handed to the matcher, and what is then pending remains.
pub open spec fn spec_summary(a: AnalysisView) -> Result<SummaryView, BinlogError> {
    match spec_finish(a.assembler.phase) {
        Err(e) => Err(e),
        Ok(completed) => match spec_settle(a, completed) {
            Err(e) => Err(e),
            Ok(b) => Ok(
                SummaryView {
                    lines: b.lines,
                    inserts: b.inserts,
                    deletes: b.deletes,
                    empty_updates: b.empty_updates,
                    other_updates: b.other_updates,
                    remaining: b.pending.dom().len(),
                },
            ),
        },
    }
}

/// What a whole run finds in `lines`.
pub open spec fn spec_empty_updates(
    table_name: Seq<char>,
    ignore: Seq<usize>,
    key_columns: Seq<usize>,
    lines: Seq<Seq<char>>,
) -> Result<SummaryView, BinlogError> {
    if key_columns.len() == 0 {
        Err(BinlogError::InvalidConfiguration)
    } else {
        match spec_feed_all(spec_start(table_name, ignore, key_columns), lines) {
            Err(e) => Err(e),
            Ok(end) => spec_summary(end),
        }
    }
}

/// An error that ends the run after some of the lines ends it after all of them.
pub proof fn lemma_feed_all_error_stays(
    a: AnalysisView,
    lines: Seq<Seq<char>>,
    k: int,
    e: BinlogError,
)
    requires
        0 <= k <= lines.len(),
        spec_feed_all(a, lines.take(k)) == Err::<AnalysisView, BinlogError>(e),
    ensures
        spec_feed_all(a, lines) == Err::<AnalysisView, BinlogError>(e),
    decreases lines.len() - k,
{
    if k == lines.len() {
        assert(lines.take(k) =~= lines);
    } else {
        assert(lines.drop_last().take(k) =~= lines.take(k));
        lemma_feed_all_error_stays(a, lines.drop_last(), k, e);
    }
}

/// A run of the analysis, between two lines.
pub struct EmptyUpdateAnalysis {
    assembler: RecordAssembler,
    matcher: EmptyUpdateMatcher,
    lines: usize,
    inserts: usize,
    deletes: usize,
    empty_updates: usize,
    other_updates: usize,
}

/// 1 while a record is being assembled, 0 between records.
pub open spec fn busy(phase: PhaseView) -> nat {
    match phase {
        PhaseView::Idle => 0,
        _ => 1,
    }
}

impl View for EmptyUpdateAnalysis {
    type V = AnalysisView;

    closed spec fn view(&self) -> AnalysisView {
        AnalysisView {
            assembler: self.assembler@,
            key_columns: self.matcher.key_columns(),
            pending: self.matcher.pending(),
            lines: self.lines as nat,
            inserts: self.inserts as nat,
            deletes: self.deletes as nat,
            empty_updates: self.empty_updates as nat,
            other_updates: self.other_updates as nat,
        }
    }
}

/// Hands a completed row change, if there is one, to the matcher and counts what it
/// resolved.
fn settle(
    matcher: &mut EmptyUpdateMatcher,
    completed: Option<RowChangeEvent>,
    empty_updates: usize,
    other_updates: usize,
) -> (r: Result<(usize, usize), BinlogError>)
    requires
        old(matcher).wf(),
        crate::assembler::event_wf(completed),
        completed.is_some() ==> empty_updates + other_updates < usize::MAX,
    ensures
        final(matcher).wf(),
        final(matcher).key_columns() == old(matcher).key_columns(),
        match completed {
            None => r == Ok::<(usize, usize), BinlogError>((empty_updates, other_updates))
                && final(matcher).pending() == old(matcher).pending(),
            Some(event) => {
                let (pending, outcome) = spec_observe(
                    old(matcher).pending(),
                    old(matcher).key_columns(),
                    event@,
                );
                match outcome {
                    MatchOutcome::MissingKeyColumn => r == Err::<(usize, usize), BinlogError>(
                        BinlogError::MissingKeyColumn,
                    ),
                    MatchOutcome::EmptyUpdate => r == Ok::<(usize, usize), BinlogError>(
                        ((empty_updates + 1) as usize, other_updates),
                    ) && final(matcher).pending() == pending,
                    MatchOutcome::RealUpdate => r == Ok::<(usize, usize), BinlogError>(
                        (empty_updates, (other_updates + 1) as usize),
                    ) && final(matcher).pending() == pending,
                    MatchOutcome::Stored => r == Ok::<(usize, usize), BinlogError>(
                        (empty_updates, other_updates),
                    ) && final(matcher).pending() == pending,
                }
            },
        },
{
    match completed {
        None => Ok((empty_updates, other_updates)),
        Some(event) => match matcher.observe(event) {
            MatchOutcome::MissingKeyColumn => Err(BinlogError::MissingKeyColumn),
            MatchOutcome::EmptyUpdate => Ok((empty_updates + 1, other_updates)),
            MatchOutcome::RealUpdate => Ok((empty_updates, other_updates + 1)),
            MatchOutcome::Stored => Ok((empty_updates, other_updates)),
        },
    }
}

impl EmptyUpdateAnalysis {
    /// The parts are well formed, and the counts agree with each other: no more headers
    /// than lines, and no more resolved pairs than records that were completed.
    pub closed spec fn wf(&self) -> bool {
        &&& self.assembler.wf()
        &&& self.matcher.wf()
        &&& self.inserts + self.deletes <= self.lines
        &&& self.empty_updates + self.other_updates + busy(self.assembler@.phase) <= self.inserts
            + self.deletes
    }

    /// Starts a run on the table `table_name`, with the rows told by `key_columns` and
    /// the columns in `ignore` left out of every comparison.
    ///
    /// Fails with `InvalidConfiguration` where no key column is given.
    pub fn new(table_name: &str, ignore: Vec<usize>, key_columns: Vec<usize>) -> (r: Result<
        EmptyUpdateAnalysis,
        BinlogError,
    >)
        ensures
            match r {
                Ok(analysis) => key_columns@.len() > 0 && analysis.wf() && analysis@
                    == spec_start(table_name@, ignore@, key_columns@),
                Err(e) => key_columns@.len() == 0 && e == BinlogError::InvalidConfiguration,
            },
    {
        if key_columns.len() == 0 {
            return Err(BinlogError::InvalidConfiguration);
        }
        Ok(
            EmptyUpdateAnalysis {
                assembler: RecordAssembler::new(table_name, ignore),
                matcher: EmptyUpdateMatcher::new(key_columns),
                lines: 0,
                inserts: 0,
                deletes: 0,
                empty_updates: 0,
                other_updates: 0,
            },
        )
    }

    /// The number of lines read so far.
    pub fn lines_read(&self) -> (r: usize)
        ensures
            r == self@.lines,
    {
        self.lines
    }

    /// Reads one line and returns the run as it stands after it. The count of lines
    /// must still fit in a `usize` after this one.
    ///
    /// Fails with `MissingMarker` where the line had to be a marker and is none, and
    /// with `MissingKeyColumn` where the row change that the line completed lacks a key
    /// column.
    pub fn feed_line(self, line: &str) -> (r: Result<EmptyUpdateAnalysis, BinlogError>)
        requires
            self.wf(),
            self@.lines < usize::MAX,
        ensures
            match r {
                Ok(next) => next.wf() && spec_feed(self@, line@) == Ok::<
                    AnalysisView,
                    BinlogError,
                >(next@),
                Err(e) => spec_feed(self@, line@) == Err::<AnalysisView, BinlogError>(e),
            },
    {
        let EmptyUpdateAnalysis {
            assembler,
            matcher,
            lines,
            inserts,
            deletes,
            empty_updates,
            other_updates,
        } = self;
        let mut matcher = matcher;
        let (assembler, step) = match assembler.push_line(line) {
            Err(e) => {
                return Err(e);
            },
            Ok(pushed) => pushed,
        };
        let (empty_updates, other_updates) = match settle(
            &mut matcher,
            step.completed,
            empty_updates,
            other_updates,
        ) {
            Err(e) => {
                return Err(e);
            },
            Ok(counts) => counts,
        };
        let (inserts, deletes) = match step.opened {
            Some(BinlogOperation::Insert) => (inserts + 1, deletes),
            Some(BinlogOperation::Delete) => (inserts, deletes + 1),
            _ => (inserts, deletes),
        };
        Ok(
            EmptyUpdateAnalysis {
                assembler,
                matcher,
                lines: lines + 1,
                inserts,
                deletes,
                empty_updates,
                other_updates,
            },
        )
    }

    /// Ends the input and returns what the run found.
    ///
    /// Fails with `MissingMarker` where the input ends after a header, and with
    /// `MissingKeyColumn` where the row change that the end completes lacks a key column.
    pub fn finish(self) -> (r: Result<Summary, BinlogError>)
        requires
            self.wf(),
        ensures
            match r {
                Ok(summary) => spec_summary(self@) == Ok::<SummaryView, BinlogError>(summary@),
                Err(e) => spec_summary(self@) == Err::<SummaryView, BinlogError>(e),
            },
    {
        let EmptyUpdateAnalysis {
            assembler,
            matcher,
            lines,
            inserts,
            deletes,
            empty_updates,
            other_updates,
        } = self;
        let mut matcher = matcher;
        let completed = match assembler.finish() {
            Err(e) => {
                return Err(e);
            },
            Ok(completed) => completed,
        };
        let (empty_updates, other_updates) = match settle(
            &mut matcher,
            completed,
            empty_updates,
            other_updates,
        ) {
            Err(e) => {
                return Err(e);
            },
            Ok(counts) => counts,
        };
        let remaining = matcher.remaining();
        Ok(Summary { lines, inserts, deletes, empty_updates, other_updates, remaining })
    }
}

/// Runs the analysis on a whole input.
///
/// Reads `lines` in order as the dump of a replication log and pairs the inserts and
/// deletes of the table `table_name` row by row. A row is told by the values of
/// `key_columns`; the columns in `ignore` take no part.
///
/// Fails with `InvalidConfiguration` where no key column is given, with `MissingMarker`
/// where a header of the table is followed by anything but a marker line or by the end
/// of the input, and with `MissingKeyColumn` where a row change lacks a key column.
pub fn empty_updates(
    table_name: &str,
    ignore: Vec<usize>,
    key_columns: Vec<usize>,
    lines: &Vec<String>,
) -> (r: Result<Summary, BinlogError>)
    ensures
        match r {
            Ok(summary) => spec_empty_updates(
                table_name@,
                ignore@,
                key_columns@,
                texts(lines@),
            ) == Ok::<SummaryView, BinlogError>(summary@),
            Err(e) => spec_empty_updates(table_name@, ignore@, key_columns@, texts(lines@))
                == Err::<SummaryView, BinlogError>(e),
        },
{
    let ghost start = spec_start(table_name@, ignore@, key_columns@);
    let ghost all = texts(lines@);
    let mut analysis = match EmptyUpdateAnalysis::new(table_name, ignore, key_columns) {
        Err(e) => {
            return Err(e);
        },
        Ok(analysis) => analysis,
    };
    let mut i: usize = 0;
    while i < lines.len()
        invariant
            i <= lines@.len(),
            all == texts(lines@),
            start == spec_start(table_name@, ignore@, key_columns@),
            key_columns@.len() > 0,
            analysis.wf(),
            analysis@.lines == i,
            spec_feed_all(start, all.take(i as int)) == Ok::<AnalysisView, BinlogError>(
                analysis@,
            ),
        decreases lines@.len() - i,
    {
        let ghost mid = analysis@;
        assert(all.take(i + 1).drop_last() =~= all.take(i as int));
        assert(all.take(i + 1).last() == lines@[i as int]@);
        match analysis.feed_line(lines[i].as_str()) {
            Err(e) => {
                proof {
                    assert(spec_feed(mid, all.take(i + 1).last()) == Err::<
                        AnalysisView,
                        BinlogError,
                    >(e));
                    assert(spec_feed_all(start, all.take(i + 1)) == Err::<
                        AnalysisView,
                        BinlogError,
                    >(e));
                    lemma_feed_all_error_stays(start, all, i + 1, e);
                }
                return Err(e);
            },
            Ok(next) => {
                analysis = next;
            },
        }
        i = i + 1;
    }
    assert(all.take(i as int) =~= all);
    analysis.finish()
}

} // verus!
