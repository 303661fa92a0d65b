use database::btree::Record;
use database::storage::{parse_records, render_records, StorageError};

fn pairs(records: Vec<Record>) -> Vec<(i32, String)> {
    records.into_iter().map(|r| (r.key, r.value)).collect()
}

fn rec(key: i32, value: &str) -> Record {
    Record { key, value: value.to_string() }
}

#[test]
fn parse_reads_one_record_per_line() {
    let got = parse_records("1,one\n2,two\n-3,minus three\n").unwrap();
    assert_eq!(
        pairs(got),
        vec![(1, "one".to_string()), (2, "two".to_string()), (-3, "minus three".to_string())]
    );
}

#[test]
fn parse_of_an_empty_text_gives_no_records() {
    assert!(parse_records("").unwrap().is_empty());
    assert!(parse_records("\n").unwrap().is_empty());
    assert!(parse_records("\n\n\n").unwrap().is_empty());
}

#[test]
fn parse_takes_a_last_line_without_line_feed() {
    assert_eq!(pairs(parse_records("1,a\n2,b").unwrap()), vec![(1, "a".to_string()), (2, "b".to_string())]);
}

#[test]
fn parse_takes_carriage_return_and_line_feed_as_line_end() {
    assert_eq!(
        pairs(parse_records("1,a\r\n2,b\r\n").unwrap()),
        vec![(1, "a".to_string()), (2, "b".to_string())]
    );
    // A carriage return that no line feed follows belongs to the value.
    assert_eq!(pairs(parse_records("1,a\r").unwrap()), vec![(1, "a\r".to_string())]);
    assert_eq!(pairs(parse_records("1,a\rb\n").unwrap()), vec![(1, "a\rb".to_string())]);
}

#[test]
fn parse_passes_over_lines_without_exactly_one_comma() {
    let got = parse_records("no comma\n1,a\n2,b,c\n,,\n3,d\n").unwrap();
    assert_eq!(pairs(got), vec![(1, "a".to_string()), (3, "d".to_string())]);
    // A line that is passed over may hold anything before its commas.
    assert!(parse_records("x,y,z\n").unwrap().is_empty());
}

#[test]
fn parse_keeps_an_empty_value() {
    assert_eq!(pairs(parse_records("7,\n").unwrap()), vec![(7, String::new())]);
}

#[test]
fn parse_refuses_a_key_that_is_no_number() {
    assert_eq!(parse_records("x,1\n").unwrap_err(), StorageError::InvalidKey { line: 0 });
    assert_eq!(parse_records("1,a\n\nb,2\n3,c\n").unwrap_err(), StorageError::InvalidKey { line: 2 });
    assert_eq!(parse_records(",a\n").unwrap_err(), StorageError::InvalidKey { line: 0 });
    assert_eq!(parse_records("1,a\n 2,b\n").unwrap_err(), StorageError::InvalidKey { line: 1 });
    assert_eq!(
        parse_records("1,a\n2147483648,b\n").unwrap_err(),
        StorageError::InvalidKey { line: 1 }
    );
    assert_eq!(parse_records("1,a\nskipped\nq,b").unwrap_err(), StorageError::InvalidKey { line: 2 });
}

#[test]
fn parse_keeps_duplicates_in_order() {
    assert_eq!(
        pairs(parse_records("1,a\n1,b\n").unwrap()),
        vec![(1, "a".to_string()), (1, "b".to_string())]
    );
}

#[test]
fn render_writes_key_comma_value_line_feed() {
    assert_eq!(render_records(&vec![]), "");
    assert_eq!(render_records(&vec![rec(1, "one")]), "1,one\n");
    assert_eq!(
        render_records(&vec![rec(-5, "x y"), rec(i32::MAX, ""), rec(i32::MIN, "é")]),
        "-5,x y\n2147483647,\n-2147483648,é\n"
    );
}

#[test]
fn what_was_rendered_is_parsed_back() {
    let records = vec![rec(3, "three"), rec(-1, ""), rec(0, "with space"), rec(9, "a\rb")];
    let text = render_records(&records);
    let back = parse_records(&text).unwrap();
    assert_eq!(pairs(back), pairs(records));
}

#[test]
fn a_value_with_a_comma_is_lost_on_the_way_back() {
    let text = render_records(&vec![rec(1, "a,b"), rec(2, "c")]);
    assert_eq!(text, "1,a,b\n2,c\n");
    assert_eq!(pairs(parse_records(&text).unwrap()), vec![(2, "c".to_string())]);
}
