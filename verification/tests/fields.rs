use binlog_analysis::field::extract_field_value;
use binlog_analysis::row::FieldMap;
use binlog_analysis::text::{contains_index, decimal_string, same_text};

#[test]
fn field_line_gives_index_and_value() {
    assert_eq!(extract_field_value("###   @1=5"), Some((1, "5".to_string())));
    assert_eq!(extract_field_value("###   @2=foo"), Some((2, "foo".to_string())));
    assert_eq!(extract_field_value("###   @17='a b'"), Some((17, "'a b'".to_string())));
}

#[test]
fn value_is_the_rest_of_the_line_verbatim() {
    assert_eq!(
        extract_field_value("###   @3='x=y' /* VARSTRING(60) meta=60 nullable=1 */ "),
        Some((3, "'x=y' /* VARSTRING(60) meta=60 nullable=1 */ ".to_string()))
    );
    assert_eq!(extract_field_value("###   @4=  \t\\'é`"), Some((4, "  \t\\'é`".to_string())));
    assert_eq!(extract_field_value("###   @4=\r"), Some((4, "\r".to_string())));
}

#[test]
fn value_may_be_empty() {
    assert_eq!(extract_field_value("###   @9="), Some((9, String::new())));
}

#[test]
fn index_is_read_as_a_decimal_number() {
    assert_eq!(extract_field_value("###   @0=a"), Some((0, "a".to_string())));
    assert_eq!(extract_field_value("###   @007=a"), Some((7, "a".to_string())));
    assert_eq!(extract_field_value("###   @1234567890=a"), Some((1234567890, "a".to_string())));
    let top = format!("###   @{}=a", usize::MAX);
    assert_eq!(extract_field_value(&top), Some((usize::MAX, "a".to_string())));
}

#[test]
fn index_too_large_for_the_machine_gives_nothing() {
    assert_eq!(extract_field_value("###   @340282366920938463463374607431768211456=a"), None);
    let over = format!("###   @{}0=a", usize::MAX);
    assert_eq!(extract_field_value(&over), None);
}

#[test]
fn field_text_may_follow_other_text_and_the_first_counts() {
    assert_eq!(extract_field_value("x###   @1=5"), Some((1, "5".to_string())));
    assert_eq!(
        extract_field_value("###   @1=###   @2=b"),
        Some((1, "###   @2=b".to_string()))
    );
    assert_eq!(extract_field_value("###   @x=###   @2=b"), Some((2, "b".to_string())));
}

#[test]
fn value_holds_no_line_feed() {
    assert_eq!(extract_field_value("###   @1=a\nb"), None);
    assert_eq!(extract_field_value("###   @1=a\n"), None);
    assert_eq!(extract_field_value("###   @1=a\n###   @2=b"), Some((2, "b".to_string())));
}

#[test]
fn other_lines_are_no_field_lines() {
    for line in [
        "",
        "###",
        "### SET",
        "###   @",
        "###   @1",
        "###   @=5",
        "###   @a=5",
        "###   @-1=5",
        "###   @+1=5",
        "###   @1 =5",
        "###  @1=5",
        "###    @1=5",
        "### @1=5",
        "##   @1=5",
        "###   @１=5",
        "### DELETE FROM `db`.`t`",
    ] {
        assert_eq!(extract_field_value(line), None, "{line:?}");
    }
}

#[test]
fn field_map_starts_empty() {
    let map = FieldMap::new();
    assert!(!map.contains_key(0));
    assert_eq!(map.get(1), None);
    assert!(map.same_fields(&FieldMap::new()));
}

#[test]
fn field_map_insert_then_get() {
    let mut map = FieldMap::new();
    map.insert(3, "c".to_string());
    map.insert(1, "a".to_string());
    assert_eq!(map.get(3), Some(&"c".to_string()));
    assert_eq!(map.get(1), Some(&"a".to_string()));
    assert_eq!(map.get(2), None);
    assert!(map.contains_key(1));
    assert!(!map.contains_key(2));
}

#[test]
fn field_map_later_value_takes_the_place_of_the_earlier() {
    let mut map = FieldMap::new();
    map.insert(1, "a".to_string());
    map.insert(2, "b".to_string());
    map.insert(1, "z".to_string());
    assert_eq!(map.get(1), Some(&"z".to_string()));
    assert_eq!(map.get(2), Some(&"b".to_string()));
    let mut once = FieldMap::new();
    once.insert(2, "b".to_string());
    once.insert(1, "z".to_string());
    assert!(map.same_fields(&once));
}

#[test]
fn field_map_remove_returns_the_value_once() {
    let mut map = FieldMap::new();
    map.insert(1, "a".to_string());
    map.insert(2, "b".to_string());
    map.insert(3, "c".to_string());
    assert_eq!(map.remove(2), Some("b".to_string()));
    assert_eq!(map.remove(2), None);
    assert_eq!(map.get(1), Some(&"a".to_string()));
    assert_eq!(map.get(3), Some(&"c".to_string()));
    assert_eq!(map.remove(9), None);
}

#[test]
fn field_maps_are_the_same_whatever_the_order_of_insertion() {
    let mut a = FieldMap::new();
    a.insert(1, "x".to_string());
    a.insert(2, "y".to_string());
    let mut b = FieldMap::new();
    b.insert(2, "y".to_string());
    b.insert(1, "x".to_string());
    assert!(a.same_fields(&b));
    assert!(b.same_fields(&a));
}

#[test]
fn field_maps_differ_by_a_value_or_by_a_column() {
    let mut a = FieldMap::new();
    a.insert(1, "x".to_string());
    a.insert(2, "y".to_string());
    let mut other_value = FieldMap::new();
    other_value.insert(1, "x".to_string());
    other_value.insert(2, "Y".to_string());
    assert!(!a.same_fields(&other_value));
    let mut fewer = FieldMap::new();
    fewer.insert(1, "x".to_string());
    assert!(!a.same_fields(&fewer));
    assert!(!fewer.same_fields(&a));
    let mut other_column = FieldMap::new();
    other_column.insert(1, "x".to_string());
    other_column.insert(3, "y".to_string());
    assert!(!a.same_fields(&other_column));
}

#[test]
fn decimal_string_writes_numbers_as_std_does() {
    for n in [0usize, 1, 9, 10, 11, 99, 100, 101, 1000, 65535, 4294967295, usize::MAX] {
        assert_eq!(decimal_string(n), n.to_string());
    }
    assert_eq!(decimal_string(0), "0");
    assert_eq!(decimal_string(1203), "1203");
}

#[test]
fn same_text_compares_character_by_character() {
    assert!(same_text("", ""));
    assert!(same_text("é`x", "é`x"));
    assert!(!same_text("a", "b"));
    assert!(!same_text("a", "ab"));
    assert!(!same_text("ab", "a"));
}

#[test]
fn contains_index_finds_what_is_there() {
    let v = vec![4usize, 2, 9];
    assert!(contains_index(&v, 4));
    assert!(contains_index(&v, 9));
    assert!(!contains_index(&v, 3));
    assert!(!contains_index(&Vec::new(), 0));
}
