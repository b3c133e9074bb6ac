//! Grouping of lines into row changes.
//!
//! A row change of the analysed table is written as a header line, a marker line
//! (`### SET` or `### WHERE`) and any number of field lines. The assembler reads one
//! line at a time. The line that ends a run of field lines is read again as a line that
//! may open the next record.

use vstd::prelude::*;
use vstd::string::*;
use crate::binlog::{
    header_text,
    is_name,
    lemma_header_text_is_classified,
    spec_classify,
    BinlogOperation,
    BinlogRecord,
};
use crate::error::BinlogError;
use crate::field::{
    extract_field_value,
    field_text,
    is_single_line,
    lemma_plain_field_line,
    spec_extract_field,
};
use crate::row::{EventView, FieldMap, RowChangeEvent};
use crate::text::{contains_index, decimal_text, lemma_decimal_text_value, same_text, texts};

verus! {

/// The operation that `line` opens on the table `table_name`, where it is the header of
/// an insert or a delete on a table of that name.
pub open spec fn spec_next_operation(line: Seq<char>, table_name: Seq<char>) -> Option<
    BinlogOperation,
> {
    match spec_classify(line) {
        Some(record) => if record.table_name == table_name && record.op
            != BinlogOperation::Update {
            Some(record.op)
        } else {
            None
        },
        None => None,
    }
}

/// Tells which operation `line` opens on the table `table_name`: `Some` for the header
/// of an insert or a delete on a table of that name, whatever its schema, and `None` for
/// an update, another table, or a line that is no header.
pub fn next_operation_for_table(line: &str, table_name: &str) -> (r: Option<BinlogOperation>)
    ensures
        r == spec_next_operation(line@, table_name@),
{
    match BinlogRecord::try_from(line) {
        Ok(record) => {
            let wanted = same_text(record.table_name.as_str(), table_name);
            match record.op {
                BinlogOperation::Update => None,
                _ => if wanted {
                    Some(record.op)
                } else {
                    None
                },
            }
        },
        Err(_) => None,
    }
}

/// `line` is one of the two lines that open a block of field lines.
pub open spec fn is_marker(line: Seq<char>) -> bool {
    line == "### SET"@ || line == "### WHERE"@
}

/// Tells whether `line` is `### SET` or `### WHERE`. Either is taken after any header.
pub fn is_block_marker(line: &str) -> (r: bool)
    ensures
        r == is_marker(line@),
{
    same_text(line, "### SET") || same_text(line, "### WHERE")
}

/// Where the assembler stands between two lines.
#[derive(Debug)]
pub enum AssemblerState {
    /// Between records.
    Idle,
    /// A header was read; the marker line must come next.
    AwaitingMarker { operation: BinlogOperation },
    /// The marker was read; field lines are gathered.
    CollectingFields { operation: BinlogOperation, fields: FieldMap },
}

/// The mathematical content of an [`AssemblerState`].
pub enum PhaseView {
    Idle,
    AwaitingMarker { operation: BinlogOperation },
    CollectingFields { operation: BinlogOperation, fields: Map<usize, Seq<char>> },
}

impl View for AssemblerState {
    type V = PhaseView;

    open spec fn view(&self) -> PhaseView {
        match *self {
            AssemblerState::Idle => PhaseView::Idle,
            AssemblerState::AwaitingMarker { operation } => PhaseView::AwaitingMarker {
                operation,
            },
            AssemblerState::CollectingFields { operation, fields } => PhaseView::CollectingFields {
                operation,
                fields: fields@,
            },
        }
    }
}

impl AssemblerState {
    /// The values gathered so far are well formed.
    pub open spec fn wf(&self) -> bool {
        match *self {
            AssemblerState::CollectingFields { operation, fields } => fields.wf(),
            _ => true,
        }
    }
}

/// What one line did: the row change that it completed and the operation that it opened.
#[derive(Debug)]
pub struct AssemblyStep {
    pub completed: Option<RowChangeEvent>,
    pub opened: Option<BinlogOperation>,
}

/// The mathematical content of an [`AssemblyStep`].
pub struct StepView {
    pub completed: Option<EventView>,
    pub opened: Option<BinlogOperation>,
}

/// The content of a row change that may be absent.
pub open spec fn event_view(event: Option<RowChangeEvent>) -> Option<EventView> {
    match event {
        Some(e) => Some(e@),
        None => None,
    }
}

/// The values of a row change that may be absent are well formed.
pub open spec fn event_wf(event: Option<RowChangeEvent>) -> bool {
    match event {
        Some(e) => e.fields.wf(),
        None => true,
    }
}

impl View for AssemblyStep {
    type V = StepView;

    open spec fn view(&self) -> StepView {
        StepView { completed: event_view(self.completed), opened: self.opened }
    }
}

/// The assembler of the row changes of one table.
#[derive(Debug)]
pub struct RecordAssembler {
    table_name: String,
    ignore: Vec<usize>,
    state: AssemblerState,
}

/// The mathematical content of a [`RecordAssembler`]: the table it listens for, the
/// columns it leaves out, and where it stands.
pub struct AssemblerView {
    pub table_name: Seq<char>,
    pub ignore: Seq<usize>,
    pub phase: PhaseView,
}

/// The phase after `line` was read between records, and the operation that it opened.
pub open spec fn spec_open(line: Seq<char>, table_name: Seq<char>) -> (
    PhaseView,
    Option<BinlogOperation>,
) {
    match spec_next_operation(line, table_name) {
        Some(operation) => (PhaseView::AwaitingMarker { operation }, Some(operation)),
        None => (PhaseView::Idle, None),
    }
}

/// One step of the assembler: from where it stands and the next line to where it stands
/// then and what the line did, or to the error that ends the run.
pub open spec fn spec_push(a: AssemblerView, line: Seq<char>) -> Result<
    (AssemblerView, StepView),
    BinlogError,
> {
    match a.phase {
        PhaseView::Idle => {
            let (phase, opened) = spec_open(line, a.table_name);
            Ok((AssemblerView { phase, ..a }, StepView { completed: None, opened }))
        },
        PhaseView::AwaitingMarker { operation } => if is_marker(line) {
            Ok(
                (
                    AssemblerView {
                        phase: PhaseView::CollectingFields { operation, fields: Map::empty() },
                        ..a
                    },
                    StepView { completed: None, opened: None },
                ),
            )
        } else {
            Err(BinlogError::MissingMarker)
        },
        PhaseView::CollectingFields { operation, fields } => match spec_extract_field(line) {
            Some((index, text)) => Ok(
                (
                    AssemblerView {
                        phase: PhaseView::CollectingFields {
                            operation,
                            fields: if a.ignore.contains(index) {
                                fields
                            } else {
                                fields.insert(index, text)
                            },
                        },
                        ..a
                    },
                    StepView { completed: None, opened: None },
                ),
            ),
            None => {
                let (phase, opened) = spec_open(line, a.table_name);
                Ok(
                    (
                        AssemblerView { phase, ..a },
                        StepView { completed: Some(EventView { operation, fields }), opened },
                    ),
                )
            },
        },
    }
}

/// What the end of the input does: it completes the row change whose fields were being
/// gathered, and is an error where a marker line was due.
pub open spec fn spec_finish(phase: PhaseView) -> Result<Option<EventView>, BinlogError> {
    match phase {
        PhaseView::Idle => Ok(None),
        PhaseView::AwaitingMarker { operation } => Err(BinlogError::MissingMarker),
        PhaseView::CollectingFields { operation, fields } => Ok(
            Some(EventView { operation, fields }),
        ),
    }
}

impl View for RecordAssembler {
    type V = AssemblerView;

    closed spec fn view(&self) -> AssemblerView {
        AssemblerView {
            table_name: self.table_name@,
            ignore: self.ignore@,
            phase: self.state@,
        }
    }
}

impl RecordAssembler {
    /// The values gathered so far are well formed.
    pub closed spec fn wf(&self) -> bool {
        self.state.wf()
    }

    /// An assembler between records, for the table `table_name`, that leaves out the
    /// columns in `ignore`.
    pub fn new(table_name: &str, ignore: Vec<usize>) -> (r: RecordAssembler)
        ensures
            r.wf(),
            r@ == (AssemblerView {
                table_name: table_name@,
                ignore: ignore@,
                phase: PhaseView::Idle,
            }),
    {
        RecordAssembler {
            table_name: String::from_str(table_name),
            ignore,
            state: AssemblerState::Idle,
        }
    }

    /// The phase that `line` leads to when read between records.
    fn open(line: &str, table_name: &String) -> (r: (AssemblerState, Option<BinlogOperation>))
        ensures
            r.0.wf(),
            (r.0@, r.1) == spec_open(line@, table_name@),
    {
        match next_operation_for_table(line, table_name.as_str()) {
            Some(operation) => (AssemblerState::AwaitingMarker { operation }, Some(operation)),
            None => (AssemblerState::Idle, None),
        }
    }

    /// Reads one line.
    ///
    /// Returns the assembler as it stands after the line, with the row change that the
    /// line completed and the operation that it opened. Fails with `MissingMarker` where
    /// a header is followed by anything but a marker line.
    pub fn push_line(self, line: &str) -> (r: Result<(RecordAssembler, AssemblyStep), BinlogError>)
        requires
            self.wf(),
        ensures
            match r {
                Ok((next, step)) => next.wf() && event_wf(step.completed) && spec_push(
                    self@,
                    line@,
                ) == Ok::<(AssemblerView, StepView), BinlogError>((next@, step@)),
                Err(e) => spec_push(self@, line@) == Err::<(AssemblerView, StepView), BinlogError>(
                    e,
                ),
            },
    {
        let RecordAssembler { table_name, ignore, state } = self;
        match state {
            AssemblerState::Idle => {
                let (state, opened) = Self::open(line, &table_name);
                Ok(
                    (
                        RecordAssembler { table_name, ignore, state },
                        AssemblyStep { completed: None, opened },
                    ),
                )
            },
            AssemblerState::AwaitingMarker { operation } => {
                if is_block_marker(line) {
                    let state = AssemblerState::CollectingFields {
                        operation,
                        fields: FieldMap::new(),
                    };
                    Ok(
                        (
                            RecordAssembler { table_name, ignore, state },
                            AssemblyStep { completed: None, opened: None },
                        ),
                    )
                } else {
                    Err(BinlogError::MissingMarker)
                }
            },
            AssemblerState::CollectingFields { operation, fields } => {
                let mut fields = fields;
                match extract_field_value(line) {
                    Some((index, text)) => {
                        if !contains_index(&ignore, index) {
                            fields.insert(index, text);
                        }
                        let state = AssemblerState::CollectingFields { operation, fields };
                        Ok(
                            (
                                RecordAssembler { table_name, ignore, state },
                                AssemblyStep { completed: None, opened: None },
                            ),
                        )
                    },
                    None => {
                        let (state, opened) = Self::open(line, &table_name);
                        Ok(
                            (
                                RecordAssembler { table_name, ignore, state },
                                AssemblyStep {
                                    completed: Some(RowChangeEvent { operation, fields }),
                                    opened,
                                },
                            ),
                        )
                    },
                }
            },
        }
    }

    /// Ends the input.
    ///
    /// Returns the row change whose fields were being gathered, if there is one. Fails
    /// with `MissingMarker` where the input ends after a header.
    pub fn finish(self) -> (r: Result<Option<RowChangeEvent>, BinlogError>)
        requires
            self.wf(),
        ensures
            match r {
                Ok(event) => event_wf(event) && spec_finish(self@.phase) == Ok::<
                    Option<EventView>,
                    BinlogError,
                >(event_view(event)),
                Err(e) => spec_finish(self@.phase) == Err::<Option<EventView>, BinlogError>(e),
            },
    {
        match self.state {
            AssemblerState::Idle => Ok(None),
            AssemblerState::AwaitingMarker { operation } => Err(BinlogError::MissingMarker),
            AssemblerState::CollectingFields { operation, fields } => Ok(
                Some(RowChangeEvent { operation, fields }),
            ),
        }
    }
}

/// The content of each row change of `v`.
pub open spec fn events_view(v: Seq<RowChangeEvent>) -> Seq<EventView> {
    Seq::new(v.len(), |i: int| v[i]@)
}

/// The assembler after all of `lines`, and the row changes completed on the way.
pub open spec fn spec_push_all(a: AssemblerView, lines: Seq<Seq<char>>) -> Result<
    (AssemblerView, Seq<EventView>),
    BinlogError,
>
    decreases lines.len(),
{
    if lines.len() == 0 {
        Ok((a, Seq::empty()))
    } else {
        match spec_push_all(a, lines.drop_last()) {
            Err(e) => Err(e),
            Ok((mid, events)) => match spec_push(mid, lines.last()) {
                Err(e) => Err(e),
                Ok((next, step)) => Ok(
                    (
                        next,
                        match step.completed {
                            Some(event) => events.push(event),
                            None => events,
                        },
                    ),
                ),
            },
        }
    }
}

/// The row changes of the table `table_name` that the whole input `lines` holds, in
/// their order, without the columns in `ignore`.
pub open spec fn spec_assemble(
    table_name: Seq<char>,
    ignore: Seq<usize>,
    lines: Seq<Seq<char>>,
) -> Result<Seq<EventView>, BinlogError> {
    match spec_push_all(AssemblerView { table_name, ignore, phase: PhaseView::Idle }, lines) {
        Err(e) => Err(e),
        Ok((end, events)) => match spec_finish(end.phase) {
            Err(e) => Err(e),
            Ok(Some(event)) => Ok(events.push(event)),
            Ok(None) => Ok(events),
        },
    }
}

/// An error that ends the run after some of the lines ends it after all of them.
pub proof fn lemma_push_all_error_stays(
    a: AssemblerView,
    lines: Seq<Seq<char>>,
    k: int,
    e: BinlogError,
)
    requires
        0 <= k <= lines.len(),
        spec_push_all(a, lines.take(k)) == Err::<(AssemblerView, Seq<EventView>), BinlogError>(e),
    ensures
        spec_push_all(a, lines) == Err::<(AssemblerView, Seq<EventView>), BinlogError>(e),
    decreases lines.len() - k,
{
    if k == lines.len() {
        assert(lines.take(k) =~= lines);
    } else {
        assert(lines.drop_last().take(k) =~= lines.take(k));
        lemma_push_all_error_stays(a, lines.drop_last(), k, e);
    }
}

/// Assembles the row changes of the table `table_name` from the whole input.
///
/// Returns them in their order, each without the columns in `ignore`. Fails with
/// `MissingMarker` where a header of that table is followed by anything but a marker
/// line, or by the end of the input.
pub fn assemble(table_name: &str, ignore: Vec<usize>, lines: &Vec<String>) -> (r: Result<
    Vec<RowChangeEvent>,
    BinlogError,
>)
    ensures
        match r {
            Ok(events) => spec_assemble(table_name@, ignore@, texts(lines@)) == Ok::<
                Seq<EventView>,
                BinlogError,
            >(events_view(events@)) && forall|i: int|
                0 <= i < events@.len() ==> (#[trigger] events@[i]).fields.wf(),
            Err(e) => spec_assemble(table_name@, ignore@, texts(lines@)) == Err::<
                Seq<EventView>,
                BinlogError,
            >(e),
        },
{
    let ghost start = AssemblerView {
        table_name: table_name@,
        ignore: ignore@,
        phase: PhaseView::Idle,
    };
    let ghost all = texts(lines@);
    let mut assembler = RecordAssembler::new(table_name, ignore);
    let mut events: Vec<RowChangeEvent> = Vec::new();
    let mut i: usize = 0;
    assert(events_view(events@) =~= Seq::<EventView>::empty());
    while i < lines.len()
        invariant
            i <= lines@.len(),
            all == texts(lines@),
            start == (AssemblerView {
                table_name: table_name@,
                ignore: ignore@,
                phase: PhaseView::Idle,
            }),
            assembler.wf(),
            forall|j: int| 0 <= j < events@.len() ==> (#[trigger] events@[j]).fields.wf(),
            spec_push_all(start, all.take(i as int)) == Ok::<
                (AssemblerView, Seq<EventView>),
                BinlogError,
            >((assembler@, events_view(events@))),
        decreases lines@.len() - i,
    {
        let ghost before = events_view(events@);
        let ghost mid = assembler@;
        assert(all.take(i + 1).drop_last() =~= all.take(i as int));
        assert(all.take(i + 1).last() == lines@[i as int]@);
        match assembler.push_line(lines[i].as_str()) {
            Err(e) => {
                proof {
                    assert(spec_push(mid, all.take(i + 1).last()) == Err::<
                        (AssemblerView, StepView),
                        BinlogError,
                    >(e));
                    assert(spec_push_all(start, all.take(i + 1)) == Err::<
                        (AssemblerView, Seq<EventView>),
                        BinlogError,
                    >(e));
                    lemma_push_all_error_stays(start, all, i + 1, e);
                }
                return Err(e);
            },
            Ok((next, step)) => {
                assembler = next;
                match step.completed {
                    Some(event) => {
                        events.push(event);
                        assert(events_view(events@) =~= before.push(event@));
                    },
                    None => {},
                }
            },
        }
        i = i + 1;
    }
    assert(all.take(i as int) =~= all);
    match assembler.finish() {
        Err(e) => Err(e),
        Ok(Some(event)) => {
            let ghost before = events_view(events@);
            events.push(event);
            assert(events_view(events@) =~= before.push(event@));
            Ok(events)
        },
        Ok(None) => Ok(events),
    }
}

/// The values that a run of field lines leaves: each pair of a column index and a text
/// is stored in turn, a later one in place of an earlier one for the same column, and
/// the columns in `ignore` are left out.
pub open spec fn collect_fields(pairs: Seq<(usize, Seq<char>)>, ignore: Seq<usize>) -> Map<
    usize,
    Seq<char>,
>
    decreases pairs.len(),
{
    if pairs.len() == 0 {
        Map::empty()
    } else {
        let rest = collect_fields(pairs.drop_last(), ignore);
        if ignore.contains(pairs.last().0) {
            rest
        } else {
            rest.insert(pairs.last().0, pairs.last().1)
        }
    }
}

/// No column has two different texts among `pairs`.
pub open spec fn one_text_per_column(pairs: Seq<(usize, Seq<char>)>) -> bool {
    forall|i: int, j: int|
        0 <= i < pairs.len() && 0 <= j < pairs.len() && pairs[i].0 == pairs[j].0 ==> pairs[i].1
            == pairs[j].1
}

/// Some pair of `pairs` is for the column `k`.
pub open spec fn has_column(pairs: Seq<(usize, Seq<char>)>, k: usize) -> bool {
    exists|i: int| 0 <= i < pairs.len() && (#[trigger] pairs[i]).0 == k
}

/// The values gathered hold exactly the columns that occur and are not left out, and,
/// where no column has two different texts, each with its text.
pub proof fn lemma_collect_fields_content(pairs: Seq<(usize, Seq<char>)>, ignore: Seq<usize>)
    ensures
        forall|k: usize|
            #[trigger] collect_fields(pairs, ignore).contains_key(k) <==> (!ignore.contains(k)
                && has_column(pairs, k)),
        one_text_per_column(pairs) ==> forall|i: int|
            0 <= i < pairs.len() && !ignore.contains((#[trigger] pairs[i]).0) ==> collect_fields(
                pairs,
                ignore,
            )[pairs[i].0] == pairs[i].1,
    decreases pairs.len(),
{
    if pairs.len() > 0 {
        let shorter = pairs.drop_last();
        let last = pairs.len() - 1;
        lemma_collect_fields_content(shorter, ignore);
        assert forall|k: usize|
            #[trigger] collect_fields(pairs, ignore).contains_key(k) <==> (!ignore.contains(k)
                && has_column(pairs, k)) by {
            assert(collect_fields(shorter, ignore).contains_key(k) <==> (!ignore.contains(k)
                && has_column(shorter, k)));
            if has_column(shorter, k) {
                let i = choose|i: int| 0 <= i < shorter.len() && (#[trigger] shorter[i]).0 == k;
                assert(pairs[i].0 == k);
            }
            if pairs[last].0 == k {
                assert(has_column(pairs, k));
            }
            if has_column(pairs, k) {
                let i = choose|i: int| 0 <= i < pairs.len() && (#[trigger] pairs[i]).0 == k;
                if i < last {
                    assert(shorter[i].0 == k);
                }
            }
        }
        if one_text_per_column(pairs) {
            assert(one_text_per_column(shorter)) by {
                assert forall|i: int, j: int|
                    0 <= i < shorter.len() && 0 <= j < shorter.len() && shorter[i].0
                        == shorter[j].0 implies shorter[i].1 == shorter[j].1 by {
                    assert(pairs[i].0 == pairs[j].0);
                }
            }
            assert forall|i: int|
                0 <= i < pairs.len() && !ignore.contains(
                    (#[trigger] pairs[i]).0,
                ) implies collect_fields(pairs, ignore)[pairs[i].0] == pairs[i].1 by {
                if i < last {
                    assert(shorter[i] == pairs[i]);
                    if pairs[i].0 == pairs[last].0 {
                        assert(pairs[i].1 == pairs[last].1);
                    }
                }
            }
        }
    }
}

/// The order of the field lines does not matter: two runs that hold the same pairs of
/// column and text, with no column given two different texts, leave the same values.
pub proof fn lemma_collect_fields_any_order(
    first: Seq<(usize, Seq<char>)>,
    second: Seq<(usize, Seq<char>)>,
    ignore: Seq<usize>,
)
    requires
        one_text_per_column(first),
        first.to_set() == second.to_set(),
    ensures
        collect_fields(first, ignore) == collect_fields(second, ignore),
{
    assert forall|i: int| 0 <= i < second.len() implies first.contains(#[trigger] second[i]) by {
        assert(second.contains(second[i]));
        assert(second.to_set().contains(second[i]));
        assert(first.to_set().contains(second[i]));
    }
    assert forall|i: int| 0 <= i < first.len() implies second.contains(#[trigger] first[i]) by {
        assert(first.contains(first[i]));
        assert(first.to_set().contains(first[i]));
        assert(second.to_set().contains(first[i]));
    }
    assert(one_text_per_column(second)) by {
        assert forall|i: int, j: int|
            0 <= i < second.len() && 0 <= j < second.len() && second[i].0
                == second[j].0 implies second[i].1 == second[j].1 by {
            assert(first.contains(second[i]));
            assert(first.contains(second[j]));
            let a = choose|a: int| 0 <= a < first.len() && first[a] == second[i];
            let b = choose|b: int| 0 <= b < first.len() && first[b] == second[j];
            assert(first[a].0 == first[b].0);
        }
    }
    lemma_collect_fields_content(first, ignore);
    lemma_collect_fields_content(second, ignore);
    let left = collect_fields(first, ignore);
    let right = collect_fields(second, ignore);
    assert forall|k: usize| left.contains_key(k) == right.contains_key(k) && (left.contains_key(k)
        ==> left[k] == right[k]) by {
        if has_column(first, k) {
            let i = choose|i: int| 0 <= i < first.len() && (#[trigger] first[i]).0 == k;
            assert(second.contains(first[i]));
            let j = choose|j: int| 0 <= j < second.len() && second[j] == first[i];
            assert(second[j].0 == k);
            assert(has_column(second, k));
            if !ignore.contains(k) {
                assert(left[first[i].0] == first[i].1);
                assert(right[second[j].0] == second[j].1);
            }
        }
        if has_column(second, k) {
            let j = choose|j: int| 0 <= j < second.len() && (#[trigger] second[j]).0 == k;
            assert(first.contains(second[j]));
            let i = choose|i: int| 0 <= i < first.len() && first[i] == second[j];
            assert(first[i].0 == k);
            assert(has_column(first, k));
        }
    }
    assert(left =~= right);
}

/// After a header of the table, a marker and a run of field lines, the assembler holds
/// the values that the run leaves.
proof fn lemma_push_record_lines(
    table_name: Seq<char>,
    ignore: Seq<usize>,
    header: Seq<char>,
    marker: Seq<char>,
    field_lines: Seq<Seq<char>>,
    pairs: Seq<(usize, Seq<char>)>,
    operation: BinlogOperation,
)
    requires
        spec_next_operation(header, table_name) == Some(operation),
        is_marker(marker),
        field_lines.len() == pairs.len(),
        forall|i: int|
            0 <= i < field_lines.len() ==> spec_extract_field(#[trigger] field_lines[i]) == Some(
                pairs[i],
            ),
    ensures
        spec_push_all(
            AssemblerView { table_name, ignore, phase: PhaseView::Idle },
            seq![header, marker] + field_lines,
        ) == Ok::<(AssemblerView, Seq<EventView>), BinlogError>(
            (
                AssemblerView {
                    table_name,
                    ignore,
                    phase: PhaseView::CollectingFields {
                        operation,
                        fields: collect_fields(pairs, ignore),
                    },
                },
                Seq::empty(),
            ),
        ),
    decreases field_lines.len(),
{
    let start = AssemblerView { table_name, ignore, phase: PhaseView::Idle };
    let lines = seq![header, marker] + field_lines;
    if field_lines.len() == 0 {
        let one = seq![header];
        let two = seq![header, marker];
        assert(lines =~= two);
        assert(two.drop_last() =~= one);
        assert(one.drop_last() =~= Seq::<Seq<char>>::empty());
        assert(spec_push_all(start, one.drop_last()) == Ok::<
            (AssemblerView, Seq<EventView>),
            BinlogError,
        >((start, Seq::empty())));
        assert(spec_push_all(start, one) == Ok::<(AssemblerView, Seq<EventView>), BinlogError>(
            (
                AssemblerView {
                    table_name,
                    ignore,
                    phase: PhaseView::AwaitingMarker { operation },
                },
                Seq::empty(),
            ),
        ));
        assert(collect_fields(pairs, ignore) =~= Map::<usize, Seq<char>>::empty());
    } else {
        lemma_push_record_lines(
            table_name,
            ignore,
            header,
            marker,
            field_lines.drop_last(),
            pairs.drop_last(),
            operation,
        );
        assert(lines.drop_last() =~= seq![header, marker] + field_lines.drop_last());
        assert(lines.last() == field_lines.last());
        assert(spec_extract_field(field_lines[field_lines.len() - 1]) == Some(pairs.last()));
    }
}

/// A header of the table, a marker and any number of field lines make one row change:
/// it has the header's operation and the values that the run of field lines leaves.
pub proof fn lemma_assemble_record(
    table_name: Seq<char>,
    ignore: Seq<usize>,
    header: Seq<char>,
    marker: Seq<char>,
    field_lines: Seq<Seq<char>>,
    pairs: Seq<(usize, Seq<char>)>,
    operation: BinlogOperation,
)
    requires
        spec_next_operation(header, table_name) == Some(operation),
        is_marker(marker),
        field_lines.len() == pairs.len(),
        forall|i: int|
            0 <= i < field_lines.len() ==> spec_extract_field(#[trigger] field_lines[i]) == Some(
                pairs[i],
            ),
    ensures
        spec_assemble(table_name, ignore, seq![header, marker] + field_lines) == Ok::<
            Seq<EventView>,
            BinlogError,
        >(seq![EventView { operation, fields: collect_fields(pairs, ignore) }]),
{
    lemma_push_record_lines(table_name, ignore, header, marker, field_lines, pairs, operation);
    let event = EventView { operation, fields: collect_fields(pairs, ignore) };
    assert(Seq::<EventView>::empty().push(event) =~= seq![event]);
}

/// The field lines that write out `pairs`, one line per pair.
pub open spec fn field_lines_of(pairs: Seq<(usize, Seq<char>)>) -> Seq<Seq<char>> {
    Seq::new(pairs.len(), |i: int| field_text(decimal_text(pairs[i].0 as nat), pairs[i].1))
}

/// What is written is read back: the header of an insert or a delete on the table, a
/// marker, and one field line per pair of column and text are assembled into one row
/// change with the header's operation and the values that the pairs leave.
pub proof fn lemma_written_record_reads_back(
    table_name: Seq<char>,
    ignore: Seq<usize>,
    operation: BinlogOperation,
    schema: Seq<char>,
    marker: Seq<char>,
    pairs: Seq<(usize, Seq<char>)>,
)
    requires
        operation != BinlogOperation::Update,
        is_name(schema),
        is_name(table_name),
        is_marker(marker),
        forall|i: int| 0 <= i < pairs.len() ==> is_single_line((#[trigger] pairs[i]).1),
    ensures
        spec_assemble(
            table_name,
            ignore,
            seq![header_text(operation, schema, table_name), marker] + field_lines_of(pairs),
        ) == Ok::<Seq<EventView>, BinlogError>(
            seq![EventView { operation, fields: collect_fields(pairs, ignore) }],
        ),
{
    let header = header_text(operation, schema, table_name);
    let lines = field_lines_of(pairs);
    lemma_header_text_is_classified(operation, schema, table_name);
    assert forall|i: int| 0 <= i < lines.len() implies spec_extract_field(#[trigger] lines[i])
        == Some(pairs[i]) by {
        let index = pairs[i].0;
        lemma_decimal_text_value(index as nat);
        lemma_plain_field_line(decimal_text(index as nat), pairs[i].1);
    }
    lemma_assemble_record(table_name, ignore, header, marker, lines, pairs, operation);
}

} // verus!
