use binlog_analysis::binlog::BinlogOperation;
use binlog_analysis::matcher::{EmptyUpdateMatcher, MatchOutcome};
use binlog_analysis::row::{FieldMap, RowChangeEvent};

fn change(operation: BinlogOperation, values: &[(usize, &str)]) -> RowChangeEvent {
    let mut fields = FieldMap::new();
    for (column, text) in values {
        fields.insert(*column, text.to_string());
    }
    RowChangeEvent { operation, fields }
}

#[test]
fn first_change_of_a_row_is_stored() {
    let mut matcher = EmptyUpdateMatcher::new(vec![1]);
    assert_eq!(matcher.remaining(), 0);
    let outcome = matcher.observe(change(BinlogOperation::Delete, &[(1, "5"), (2, "foo")]));
    assert_eq!(outcome, MatchOutcome::Stored);
    assert_eq!(matcher.remaining(), 1);
}

#[test]
fn delete_then_equal_insert_is_an_empty_update() {
    let mut matcher = EmptyUpdateMatcher::new(vec![1]);
    matcher.observe(change(BinlogOperation::Delete, &[(1, "5"), (2, "foo"), (3, "x")]));
    let outcome = matcher.observe(change(BinlogOperation::Insert, &[(3, "x"), (1, "5"), (2, "foo")]));
    assert_eq!(outcome, MatchOutcome::EmptyUpdate);
    assert_eq!(matcher.remaining(), 0);
}

#[test]
fn insert_then_equal_delete_is_an_empty_update() {
    let mut matcher = EmptyUpdateMatcher::new(vec![1]);
    matcher.observe(change(BinlogOperation::Insert, &[(1, "5"), (2, "foo")]));
    let outcome = matcher.observe(change(BinlogOperation::Delete, &[(1, "5"), (2, "foo")]));
    assert_eq!(outcome, MatchOutcome::EmptyUpdate);
    assert_eq!(matcher.remaining(), 0);
}

#[test]
fn one_changed_value_in_the_second_change_makes_a_real_update() {
    let mut matcher = EmptyUpdateMatcher::new(vec![1]);
    matcher.observe(change(BinlogOperation::Delete, &[(1, "5"), (2, "foo"), (3, "x")]));
    let outcome = matcher.observe(change(BinlogOperation::Insert, &[(1, "5"), (2, "foo"), (3, "y")]));
    assert_eq!(outcome, MatchOutcome::RealUpdate);
    assert_eq!(matcher.remaining(), 0);
}

#[test]
fn one_changed_value_in_the_first_change_makes_a_real_update() {
    let mut matcher = EmptyUpdateMatcher::new(vec![1]);
    matcher.observe(change(BinlogOperation::Delete, &[(1, "5"), (2, "fo"), (3, "x")]));
    let outcome = matcher.observe(change(BinlogOperation::Insert, &[(1, "5"), (2, "foo"), (3, "x")]));
    assert_eq!(outcome, MatchOutcome::RealUpdate);
}

#[test]
fn a_column_more_or_less_makes_a_real_update() {
    let mut matcher = EmptyUpdateMatcher::new(vec![1]);
    matcher.observe(change(BinlogOperation::Delete, &[(1, "5"), (2, "foo")]));
    let outcome = matcher.observe(change(BinlogOperation::Insert, &[(1, "5"), (2, "foo"), (3, "")]));
    assert_eq!(outcome, MatchOutcome::RealUpdate);
    matcher.observe(change(BinlogOperation::Delete, &[(1, "6"), (2, "foo"), (3, "")]));
    let outcome = matcher.observe(change(BinlogOperation::Insert, &[(1, "6"), (2, "foo")]));
    assert_eq!(outcome, MatchOutcome::RealUpdate);
}

#[test]
fn a_row_with_key_columns_only_is_an_empty_update() {
    let mut matcher = EmptyUpdateMatcher::new(vec![1, 2]);
    matcher.observe(change(BinlogOperation::Delete, &[(1, "5"), (2, "foo")]));
    let outcome = matcher.observe(change(BinlogOperation::Insert, &[(1, "5"), (2, "foo")]));
    assert_eq!(outcome, MatchOutcome::EmptyUpdate);
}

#[test]
fn changes_of_different_rows_do_not_meet() {
    let mut matcher = EmptyUpdateMatcher::new(vec![1]);
    assert_eq!(
        matcher.observe(change(BinlogOperation::Delete, &[(1, "5"), (2, "foo")])),
        MatchOutcome::Stored
    );
    assert_eq!(
        matcher.observe(change(BinlogOperation::Insert, &[(1, "6"), (2, "foo")])),
        MatchOutcome::Stored
    );
    assert_eq!(matcher.remaining(), 2);
    assert_eq!(
        matcher.observe(change(BinlogOperation::Insert, &[(1, "5"), (2, "foo")])),
        MatchOutcome::EmptyUpdate
    );
    assert_eq!(matcher.remaining(), 1);
    assert_eq!(
        matcher.observe(change(BinlogOperation::Delete, &[(1, "6"), (2, "bar")])),
        MatchOutcome::RealUpdate
    );
    assert_eq!(matcher.remaining(), 0);
}

#[test]
fn key_is_the_ordered_tuple_of_the_key_values() {
    let mut matcher = EmptyUpdateMatcher::new(vec![2, 1]);
    matcher.observe(change(BinlogOperation::Delete, &[(1, "a"), (2, "b"), (3, "v")]));
    assert_eq!(
        matcher.observe(change(BinlogOperation::Insert, &[(1, "b"), (2, "a"), (3, "v")])),
        MatchOutcome::Stored
    );
    assert_eq!(matcher.remaining(), 2);
    assert_eq!(
        matcher.observe(change(BinlogOperation::Insert, &[(1, "a"), (2, "b"), (3, "v")])),
        MatchOutcome::EmptyUpdate
    );
    assert_eq!(matcher.remaining(), 1);
}

#[test]
fn key_values_are_not_joined() {
    let mut matcher = EmptyUpdateMatcher::new(vec![1, 2]);
    matcher.observe(change(BinlogOperation::Delete, &[(1, "ab"), (2, "c")]));
    assert_eq!(
        matcher.observe(change(BinlogOperation::Insert, &[(1, "a"), (2, "bc")])),
        MatchOutcome::Stored
    );
    assert_eq!(matcher.remaining(), 2);
}

#[test]
fn same_operation_twice_keeps_the_first() {
    let mut matcher = EmptyUpdateMatcher::new(vec![1]);
    matcher.observe(change(BinlogOperation::Delete, &[(1, "5"), (2, "first")]));
    assert_eq!(
        matcher.observe(change(BinlogOperation::Delete, &[(1, "5"), (2, "second")])),
        MatchOutcome::Stored
    );
    assert_eq!(matcher.remaining(), 1);
    assert_eq!(
        matcher.observe(change(BinlogOperation::Insert, &[(1, "5"), (2, "first")])),
        MatchOutcome::EmptyUpdate
    );
    assert_eq!(matcher.remaining(), 0);
}

#[test]
fn same_operation_twice_does_not_take_the_second() {
    let mut matcher = EmptyUpdateMatcher::new(vec![1]);
    matcher.observe(change(BinlogOperation::Insert, &[(1, "5"), (2, "first")]));
    matcher.observe(change(BinlogOperation::Insert, &[(1, "5"), (2, "second")]));
    assert_eq!(
        matcher.observe(change(BinlogOperation::Delete, &[(1, "5"), (2, "second")])),
        MatchOutcome::RealUpdate
    );
}

#[test]
fn update_never_resolves_and_is_never_resolved() {
    let mut matcher = EmptyUpdateMatcher::new(vec![1]);
    matcher.observe(change(BinlogOperation::Delete, &[(1, "5"), (2, "foo")]));
    assert_eq!(
        matcher.observe(change(BinlogOperation::Update, &[(1, "5"), (2, "foo")])),
        MatchOutcome::Stored
    );
    assert_eq!(matcher.remaining(), 1);

    let mut matcher = EmptyUpdateMatcher::new(vec![1]);
    assert_eq!(
        matcher.observe(change(BinlogOperation::Update, &[(1, "5"), (2, "foo")])),
        MatchOutcome::Stored
    );
    for op in [BinlogOperation::Insert, BinlogOperation::Delete, BinlogOperation::Update] {
        assert_eq!(matcher.observe(change(op, &[(1, "5"), (2, "foo")])), MatchOutcome::Stored);
        assert_eq!(matcher.remaining(), 1);
    }
}

#[test]
fn missing_key_column_is_reported_and_nothing_is_stored() {
    let mut matcher = EmptyUpdateMatcher::new(vec![1, 4]);
    assert_eq!(
        matcher.observe(change(BinlogOperation::Delete, &[(1, "5"), (2, "foo")])),
        MatchOutcome::MissingKeyColumn
    );
    assert_eq!(
        matcher.observe(change(BinlogOperation::Delete, &[(4, "5"), (2, "foo")])),
        MatchOutcome::MissingKeyColumn
    );
    assert_eq!(matcher.observe(change(BinlogOperation::Insert, &[])), MatchOutcome::MissingKeyColumn);
    assert_eq!(matcher.remaining(), 0);
}

#[test]
fn key_column_named_twice_is_missing_the_second_time() {
    let mut matcher = EmptyUpdateMatcher::new(vec![1, 1]);
    assert_eq!(
        matcher.observe(change(BinlogOperation::Delete, &[(1, "5"), (2, "foo")])),
        MatchOutcome::MissingKeyColumn
    );
}

#[test]
fn resolved_row_can_be_stored_again() {
    let mut matcher = EmptyUpdateMatcher::new(vec![1]);
    matcher.observe(change(BinlogOperation::Delete, &[(1, "5"), (2, "foo")]));
    matcher.observe(change(BinlogOperation::Insert, &[(1, "5"), (2, "foo")]));
    assert_eq!(
        matcher.observe(change(BinlogOperation::Insert, &[(1, "5"), (2, "bar")])),
        MatchOutcome::Stored
    );
    assert_eq!(
        matcher.observe(change(BinlogOperation::Delete, &[(1, "5"), (2, "bar")])),
        MatchOutcome::EmptyUpdate
    );
    assert_eq!(matcher.remaining(), 0);
}

#[test]
fn many_pending_rows_are_each_found_again() {
    let mut matcher = EmptyUpdateMatcher::new(vec![1, 2]);
    for i in 0..2000usize {
        let a = i.to_string();
        let b = format!("{}:{}", i % 7, i);
        let outcome = matcher.observe(change(BinlogOperation::Delete, &[(1, &a), (2, &b), (3, "v")]));
        assert_eq!(outcome, MatchOutcome::Stored);
    }
    assert_eq!(matcher.remaining(), 2000);
    for i in (0..2000usize).rev() {
        let a = i.to_string();
        let b = format!("{}:{}", i % 7, i);
        let text = if i % 2 == 0 { "v" } else { "w" };
        let outcome = matcher.observe(change(BinlogOperation::Insert, &[(1, &a), (2, &b), (3, text)]));
        let expected = if i % 2 == 0 { MatchOutcome::EmptyUpdate } else { MatchOutcome::RealUpdate };
        assert_eq!(outcome, expected);
    }
    assert_eq!(matcher.remaining(), 0);
}

#[test]
fn key_values_with_colons_and_digits_are_told_apart() {
    let mut matcher = EmptyUpdateMatcher::new(vec![1, 2]);
    let keys = [("a:1", "b"), ("a", "1b"), ("a:1b", ""), ("", "a:1b"), ("a:", "1b"), ("a:1b:1", "")];
    for (a, b) in keys {
        assert_eq!(
            matcher.observe(change(BinlogOperation::Delete, &[(1, a), (2, b)])),
            MatchOutcome::Stored
        );
    }
    assert_eq!(matcher.remaining(), 6);
    for (a, b) in keys {
        assert_eq!(
            matcher.observe(change(BinlogOperation::Insert, &[(1, a), (2, b)])),
            MatchOutcome::EmptyUpdate
        );
    }
    assert_eq!(matcher.remaining(), 0);
}
