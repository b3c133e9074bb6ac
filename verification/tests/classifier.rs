use binlog_analysis::assembler::{is_block_marker, next_operation_for_table};
use binlog_analysis::binlog::{BinlogOperation, BinlogRecord};
use binlog_analysis::error::BinlogError;

fn header_of(line: &str) -> (BinlogOperation, String, String) {
    let record = BinlogRecord::try_from(line).expect("a header");
    (record.op, record.schema_name, record.table_name)
}

#[test]
fn delete_header_is_classified() {
    let (op, schema, table) = header_of("### DELETE FROM `db`.`t`");
    assert_eq!(op, BinlogOperation::Delete);
    assert_eq!(schema, "db");
    assert_eq!(table, "t");
}

#[test]
fn update_header_is_classified() {
    let (op, schema, table) = header_of("### UPDATE `shop`.`orders`");
    assert_eq!(op, BinlogOperation::Update);
    assert_eq!(schema, "shop");
    assert_eq!(table, "orders");
}

#[test]
fn insert_header_is_classified() {
    let (op, schema, table) = header_of("### INSERT INTO `shop`.`order_lines`");
    assert_eq!(op, BinlogOperation::Insert);
    assert_eq!(schema, "shop");
    assert_eq!(table, "order_lines");
}

#[test]
fn names_are_taken_as_they_stand() {
    let (_, schema, table) = header_of("### INSERT INTO `my db\\'x`.`t\\\\ab \"le.é`");
    assert_eq!(schema, "my db\\'x");
    assert_eq!(table, "t\\\\ab \"le.é");
}

#[test]
fn one_character_names_are_names() {
    let (op, schema, table) = header_of("### UPDATE `a`.`b`");
    assert_eq!(op, BinlogOperation::Update);
    assert_eq!(schema, "a");
    assert_eq!(table, "b");
}

#[test]
fn header_text_may_follow_other_text_on_the_line() {
    let (op, schema, table) = header_of("### at 1234 ### DELETE FROM `db`.`t`");
    assert_eq!(op, BinlogOperation::Delete);
    assert_eq!(schema, "db");
    assert_eq!(table, "t");
}

#[test]
fn line_must_begin_with_the_marker_prefix() {
    assert_eq!(
        BinlogRecord::try_from("x ### DELETE FROM `db`.`t`").unwrap_err(),
        BinlogError::ParseMismatch
    );
    assert_eq!(
        BinlogRecord::try_from(" ### DELETE FROM `db`.`t`").unwrap_err(),
        BinlogError::ParseMismatch
    );
    assert_eq!(
        BinlogRecord::try_from("## DELETE FROM `db`.`t`").unwrap_err(),
        BinlogError::ParseMismatch
    );
}

#[test]
fn trailing_content_is_no_header() {
    for line in [
        "### DELETE FROM `db`.`t` ",
        "### DELETE FROM `db`.`t`;",
        "### UPDATE `db`.`t` /* x */",
        "### INSERT INTO `db`.`t`\n",
        "### INSERT INTO `db`.`t`\r",
        "### INSERT INTO `db`.`t`.`u`",
    ] {
        assert_eq!(
            BinlogRecord::try_from(line).unwrap_err(),
            BinlogError::ParseMismatch,
            "{line:?}"
        );
    }
}

#[test]
fn wrong_quoting_is_no_header() {
    for line in [
        "### DELETE FROM 'db'.'t'",
        "### DELETE FROM \"db\".\"t\"",
        "### DELETE FROM db.t",
        "### DELETE FROM `db`.'t'",
        "### DELETE FROM 'db'.`t`",
        "### DELETE FROM `db.t`",
        "### DELETE FROM `db``t`",
        "### DELETE FROM `db`,`t`",
        "### DELETE FROM `db` . `t`",
    ] {
        assert_eq!(
            BinlogRecord::try_from(line).unwrap_err(),
            BinlogError::ParseMismatch,
            "{line:?}"
        );
    }
}

#[test]
fn empty_names_are_no_names() {
    for line in [
        "### DELETE FROM ``.`t`",
        "### DELETE FROM `db`.``",
        "### DELETE FROM ``.``",
    ] {
        assert_eq!(
            BinlogRecord::try_from(line).unwrap_err(),
            BinlogError::ParseMismatch,
            "{line:?}"
        );
    }
}

#[test]
fn other_lines_are_no_headers() {
    for line in [
        "",
        "#",
        "### ",
        "###",
        "### SET",
        "### WHERE",
        "###   @1=5",
        "### DELETE FROM",
        "### DELETE FROM `",
        "### DELETE `db`.`t`",
        "### DELETE  FROM `db`.`t`",
        "### delete from `db`.`t`",
        "### INSERT `db`.`t`",
        "### UPDATE FROM `db`.`t`",
        "### REPLACE INTO `db`.`t`",
        "`",
        "### `",
        "### `.`",
        "BEGIN",
        "# at 4",
        "###DELETE FROM `db`.`t`",
    ] {
        assert_eq!(
            BinlogRecord::try_from(line).unwrap_err(),
            BinlogError::ParseMismatch,
            "{line:?}"
        );
    }
}

#[test]
fn is_opposite_holds_for_insert_against_delete_only() {
    let delete = BinlogOperation::Delete;
    let insert = BinlogOperation::Insert;
    let update = BinlogOperation::Update;
    assert!(insert.is_opposite(delete));
    assert!(delete.is_opposite(insert));
    for (a, b) in [
        (insert, insert),
        (delete, delete),
        (update, update),
        (update, insert),
        (update, delete),
        (insert, update),
        (delete, update),
    ] {
        assert!(!a.is_opposite(b), "{a:?} {b:?}");
    }
}

#[test]
fn next_operation_is_given_for_inserts_and_deletes_of_the_table() {
    assert_eq!(
        next_operation_for_table("### DELETE FROM `db`.`t`", "t"),
        Some(BinlogOperation::Delete)
    );
    assert_eq!(
        next_operation_for_table("### INSERT INTO `other`.`t`", "t"),
        Some(BinlogOperation::Insert)
    );
}

#[test]
fn next_operation_is_none_for_updates_other_tables_and_noise() {
    assert_eq!(next_operation_for_table("### UPDATE `db`.`t`", "t"), None);
    assert_eq!(next_operation_for_table("### DELETE FROM `db`.`t2`", "t"), None);
    assert_eq!(next_operation_for_table("### DELETE FROM `t`.`db`", "t"), None);
    assert_eq!(next_operation_for_table("### DELETE FROM `db`.`T`", "t"), None);
    assert_eq!(next_operation_for_table("### DELETE FROM `db`.`t`", ""), None);
    assert_eq!(next_operation_for_table("### SET", "t"), None);
    assert_eq!(next_operation_for_table("", "t"), None);
}

#[test]
fn both_markers_are_markers_and_nothing_else_is() {
    assert!(is_block_marker("### SET"));
    assert!(is_block_marker("### WHERE"));
    for line in ["", "### SET ", " ### SET", "### set", "###  WHERE", "### WHERE\n", "### SETWHERE", "### SE"] {
        assert!(!is_block_marker(line), "{line:?}");
    }
}
