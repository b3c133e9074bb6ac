use binlog_analysis::binlog::{BinlogOperation, BinlogRecord};
use binlog_analysis::field::extract_field_value;
use regex::Regex;

fn header_patterns() -> Vec<(Regex, BinlogOperation)> {
    [
        (r"### DELETE FROM `([^`]+)`\.`([^`]+)`$", BinlogOperation::Delete),
        (r"### INSERT INTO `([^`]+)`\.`([^`]+)`$", BinlogOperation::Insert),
        (r"### UPDATE `([^`]+)`\.`([^`]+)`$", BinlogOperation::Update),
    ]
    .into_iter()
    .map(|(pattern, op)| (Regex::new(pattern).expect("a valid pattern"), op))
    .collect()
}

fn by_pattern(
    patterns: &[(Regex, BinlogOperation)],
    line: &str,
) -> Option<(BinlogOperation, String, String)> {
    if !line.starts_with("### ") {
        return None;
    }
    for (re, op) in patterns {
        if let Some(captures) = re.captures(line) {
            let schema = captures.get(1).expect("group 1").as_str().to_owned();
            let table = captures.get(2).expect("group 2").as_str().to_owned();
            return Some((*op, schema, table));
        }
    }
    None
}

fn field_by_pattern(re: &Regex, line: &str) -> Option<(usize, String)> {
    let captures = re.captures(line)?;
    let index = captures.get(1)?.as_str().parse::<usize>().ok()?;
    Some((index, captures.get(2)?.as_str().to_owned()))
}

fn sample_lines() -> Vec<String> {
    let pieces = [
        "", "### ", "###", "#", " ", "`", "``", ".", "`.`", "db", "t", "a`b", "\n", "\r", "é", "=",
        "@", "1", "12", "0", "9x", "x", "### DELETE FROM `", "### UPDATE `", "### INSERT INTO `",
        "### DELETE FROM ", "DELETE FROM `", "###   @", "###  @", "### SET", "### WHERE",
        "18446744073709551615", "18446744073709551616", "99999999999999999999999",
    ];
    let mut lines = Vec::new();
    for a in pieces {
        for b in pieces {
            lines.push(format!("{a}{b}"));
            lines.push(format!("### DELETE FROM `{a}`.`{b}`"));
            lines.push(format!("### UPDATE `{a}`.`{b}`"));
            lines.push(format!("### INSERT INTO `{a}`.`{b}`"));
            lines.push(format!("{a}### INSERT INTO `db`.`t`{b}"));
            lines.push(format!("### {a}### DELETE FROM `d{b}`.`t`"));
            lines.push(format!("###   @{a}={b}"));
            lines.push(format!("{a}###   @1={b}"));
            lines.push(format!("###   @1{a}=###   @2{b}"));
            lines.push(format!("### {a}###   @3=### UPDATE `x`.`{b}`"));
        }
    }
    lines
}

#[test]
fn classifier_agrees_with_the_patterns() {
    let lines = sample_lines();
    assert!(lines.len() > 10000);
    let patterns = header_patterns();
    let mut headers = 0;
    for line in &lines {
        let expected = by_pattern(&patterns, line);
        let got = BinlogRecord::try_from(line)
            .ok()
            .map(|record| (record.op, record.schema_name, record.table_name));
        if expected.is_some() {
            headers += 1;
        }
        assert_eq!(got, expected, "{line:?}");
    }
    assert!(headers > 1000);
}

#[test]
fn extractor_agrees_with_the_pattern() {
    let lines = sample_lines();
    let re = Regex::new(r"###   @([0-9]+)=(.*)$$").expect("a valid pattern");
    let mut fields = 0;
    for line in &lines {
        let expected = field_by_pattern(&re, line);
        if expected.is_some() {
            fields += 1;
        }
        assert_eq!(extract_field_value(line), expected, "{line:?}");
    }
    assert!(fields > 1000);
}
