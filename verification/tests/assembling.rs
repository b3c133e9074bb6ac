use binlog_analysis::assembler::{assemble, RecordAssembler};
use binlog_analysis::binlog::BinlogOperation;
use binlog_analysis::error::BinlogError;
use binlog_analysis::row::RowChangeEvent;

fn text_lines(lines: &[&str]) -> Vec<String> {
    lines.iter().map(|line| line.to_string()).collect()
}

fn values_of(event: &RowChangeEvent, columns: &[usize]) -> Vec<Option<String>> {
    columns.iter().map(|column| event.fields.get(*column).cloned()).collect()
}

#[test]
fn header_marker_and_fields_make_one_row_change() {
    let lines = text_lines(&[
        "### INSERT INTO `db`.`t`",
        "### SET",
        "###   @1=5",
        "###   @2='foo'",
        "###   @7=NULL",
    ]);
    let events = assemble("t", Vec::new(), &lines).expect("a well-formed record");
    assert_eq!(events.len(), 1);
    assert_eq!(events[0].operation, BinlogOperation::Insert);
    assert_eq!(
        values_of(&events[0], &[0, 1, 2, 3, 7]),
        vec![None, Some("5".to_string()), Some("'foo'".to_string()), None, Some("NULL".to_string())]
    );
}

#[test]
fn record_without_field_lines_has_no_values() {
    let lines = text_lines(&["### DELETE FROM `db`.`t`", "### WHERE"]);
    let events = assemble("t", Vec::new(), &lines).expect("a well-formed record");
    assert_eq!(events.len(), 1);
    assert_eq!(events[0].operation, BinlogOperation::Delete);
    assert_eq!(values_of(&events[0], &[0, 1, 2]), vec![None, None, None]);
}

#[test]
fn ignored_columns_are_left_out() {
    let lines = text_lines(&[
        "### DELETE FROM `db`.`t`",
        "### WHERE",
        "###   @1=5",
        "###   @2=foo",
        "###   @3=2024-01-01",
    ]);
    let events = assemble("t", vec![3, 9], &lines).expect("a well-formed record");
    assert_eq!(
        values_of(&events[0], &[1, 2, 3]),
        vec![Some("5".to_string()), Some("foo".to_string()), None]
    );
}

#[test]
fn order_of_field_lines_does_not_matter() {
    let straight = text_lines(&[
        "### INSERT INTO `db`.`t`",
        "### SET",
        "###   @1=5",
        "###   @2=foo",
        "###   @3=bar",
    ]);
    let shuffled = text_lines(&[
        "### INSERT INTO `db`.`t`",
        "### SET",
        "###   @3=bar",
        "###   @1=5",
        "###   @2=foo",
    ]);
    let a = assemble("t", vec![2], &straight).expect("a well-formed record");
    let b = assemble("t", vec![2], &shuffled).expect("a well-formed record");
    assert_eq!(a.len(), 1);
    assert_eq!(b.len(), 1);
    assert!(a[0].fields.same_fields(&b[0].fields));
    assert_eq!(values_of(&b[0], &[1, 2, 3]), vec![Some("5".to_string()), None, Some("bar".to_string())]);
}

#[test]
fn later_field_line_for_a_column_takes_the_place_of_the_earlier() {
    let lines = text_lines(&[
        "### INSERT INTO `db`.`t`",
        "### SET",
        "###   @1=old",
        "###   @2=x",
        "###   @1=new",
    ]);
    let events = assemble("t", Vec::new(), &lines).expect("a well-formed record");
    assert_eq!(values_of(&events[0], &[1, 2]), vec![Some("new".to_string()), Some("x".to_string())]);
}

#[test]
fn either_marker_is_taken_after_any_header() {
    let lines = text_lines(&[
        "### INSERT INTO `db`.`t`",
        "### WHERE",
        "###   @1=5",
        "### DELETE FROM `db`.`t`",
        "### SET",
        "###   @1=6",
    ]);
    let events = assemble("t", Vec::new(), &lines).expect("well-formed records");
    assert_eq!(events.len(), 2);
    assert_eq!(events[0].operation, BinlogOperation::Insert);
    assert_eq!(events[1].operation, BinlogOperation::Delete);
    assert_eq!(values_of(&events[1], &[1]), vec![Some("6".to_string())]);
}

#[test]
fn line_that_ends_a_record_may_open_the_next() {
    let lines = text_lines(&[
        "noise",
        "### DELETE FROM `db`.`t`",
        "### WHERE",
        "###   @1=5",
        "### INSERT INTO `db`.`t`",
        "### SET",
        "###   @1=5",
        "# at 1234",
        "###   @1=stray",
    ]);
    let events = assemble("t", Vec::new(), &lines).expect("well-formed records");
    assert_eq!(events.len(), 2);
    assert_eq!(events[0].operation, BinlogOperation::Delete);
    assert_eq!(events[1].operation, BinlogOperation::Insert);
    assert_eq!(values_of(&events[1], &[1]), vec![Some("5".to_string())]);
}

#[test]
fn other_tables_and_updates_are_passed_over() {
    let lines = text_lines(&[
        "### UPDATE `db`.`t`",
        "### WHERE",
        "###   @1=5",
        "### SET",
        "###   @1=6",
        "### INSERT INTO `db`.`other`",
        "### SET",
        "###   @1=5",
        "###   @1=5",
    ]);
    let events = assemble("t", Vec::new(), &lines).expect("nothing to fail on");
    assert_eq!(events.len(), 0);
}

#[test]
fn noise_after_a_header_is_a_missing_marker() {
    let lines = text_lines(&["### DELETE FROM `db`.`t`", "###   @1=5", "### WHERE"]);
    assert_eq!(assemble("t", Vec::new(), &lines).unwrap_err(), BinlogError::MissingMarker);
}

#[test]
fn header_after_a_header_is_a_missing_marker() {
    let lines = text_lines(&["### DELETE FROM `db`.`t`", "### DELETE FROM `db`.`t`", "### WHERE"]);
    assert_eq!(assemble("t", Vec::new(), &lines).unwrap_err(), BinlogError::MissingMarker);
}

#[test]
fn end_of_input_after_a_header_is_a_missing_marker() {
    let lines = text_lines(&["noise", "### INSERT INTO `db`.`t`"]);
    assert_eq!(assemble("t", Vec::new(), &lines).unwrap_err(), BinlogError::MissingMarker);
}

#[test]
fn empty_input_holds_no_row_changes() {
    let events = assemble("t", Vec::new(), &Vec::new()).expect("nothing to fail on");
    assert!(events.is_empty());
}

#[test]
fn assembler_tells_what_each_line_did() {
    let assembler = RecordAssembler::new("t", vec![2]);
    let (assembler, step) = assembler.push_line("noise").expect("noise is passed over");
    assert!(step.completed.is_none());
    assert_eq!(step.opened, None);
    let (assembler, step) = assembler.push_line("### DELETE FROM `db`.`t`").expect("a header");
    assert!(step.completed.is_none());
    assert_eq!(step.opened, Some(BinlogOperation::Delete));
    let (assembler, step) = assembler.push_line("### WHERE").expect("a marker");
    assert!(step.completed.is_none());
    assert_eq!(step.opened, None);
    let (assembler, step) = assembler.push_line("###   @1=5").expect("a field");
    assert!(step.completed.is_none());
    let (assembler, step) = assembler.push_line("###   @2=dropped").expect("a field");
    assert!(step.completed.is_none());
    let (assembler, step) = assembler.push_line("### INSERT INTO `db`.`t`").expect("a header");
    let event = step.completed.expect("the delete is complete");
    assert_eq!(event.operation, BinlogOperation::Delete);
    assert_eq!(event.fields.get(1), Some(&"5".to_string()));
    assert_eq!(event.fields.get(2), None);
    assert_eq!(step.opened, Some(BinlogOperation::Insert));
    assert_eq!(assembler.push_line("###   @1=5").unwrap_err(), BinlogError::MissingMarker);
}

#[test]
fn assembler_finish_completes_the_record_in_hand() {
    let assembler = RecordAssembler::new("t", Vec::new());
    assert!(assembler.finish().expect("nothing in hand").is_none());

    let assembler = RecordAssembler::new("t", Vec::new());
    let (assembler, _) = assembler.push_line("### INSERT INTO `db`.`t`").expect("a header");
    let (assembler, _) = assembler.push_line("### SET").expect("a marker");
    let (assembler, _) = assembler.push_line("###   @4=x").expect("a field");
    let event = assembler.finish().expect("a record in hand").expect("the insert");
    assert_eq!(event.operation, BinlogOperation::Insert);
    assert_eq!(event.fields.get(4), Some(&"x".to_string()));

    let assembler = RecordAssembler::new("t", Vec::new());
    let (assembler, _) = assembler.push_line("### INSERT INTO `db`.`t`").expect("a header");
    assert_eq!(assembler.finish().unwrap_err(), BinlogError::MissingMarker);
}
