use tcops::instance::HasId;
use tcops::parser::utils::{
    get_split_line_parts, is_empty_or_comment, parse_float, parse_integer, LineTracker,
};
use tcops::parser::validator::{validate_item_id, validate_section_data_id};

#[test]
fn test_get_split_line_parts() {
    assert_eq!(get_split_line_parts("NAME: burma14"), vec!["NAME", " burma14"]);
    assert_eq!(get_split_line_parts("  KEY : VAL  "), vec!["KEY ", " VAL"]);
    assert_eq!(get_split_line_parts("NO_COLON"), vec!["NO_COLON"]);
    assert_eq!(get_split_line_parts("A:B:C"), vec!["A", "B:C"]);
}

#[test]
fn test_parse_integer() {
    assert_eq!(parse_integer("123").unwrap(), 123);
    assert_eq!(parse_integer("0").unwrap(), 0);
    assert!(parse_integer("-5").is_err());
    assert!(parse_integer("12.34").is_err());
    assert!(parse_integer("abc").is_err());
}

fn float_value(text: &str) -> f64 {
    parse_float(text).unwrap().as_str().parse::<f64>().unwrap()
}

#[test]
fn test_parse_float() {
    assert_eq!(float_value("12.34"), 12.34);
    assert_eq!(float_value("-5.67"), -5.67);
    assert_eq!(float_value("10"), 10.0);
    assert!(parse_float("abc").is_err());
}

#[test]
fn test_is_empty_or_comment() {
    assert!(is_empty_or_comment(""));
    assert!(is_empty_or_comment("   \t\n"));
    assert!(is_empty_or_comment("# comment"));
    assert!(is_empty_or_comment("   # comment with leading spaces"));
    assert!(!is_empty_or_comment("NAME: test"));
}

#[test]
fn test_line_tracker() {
    let input = "
# Comment line 1
NAME: test

# Comment line 2
DIMENSION: 10
";
    let mut tracker = LineTracker::new(input);

    assert_eq!(tracker.current_line(), 0);

    let line1 = tracker.read_next_valid_line();
    assert_eq!(line1.trim(), "NAME: test");
    assert_eq!(tracker.current_line(), 3);

    let line2 = tracker.read_next_valid_line();
    assert_eq!(line2.trim(), "DIMENSION: 10");
    assert_eq!(tracker.current_line(), 6);

    let eof = tracker.read_next_valid_line();
    assert!(eof.is_empty());
}

struct DummyItem {
    id: usize,
}

impl HasId for DummyItem {
    fn spec_id(&self) -> usize {
        self.id
    }

    fn id(&self) -> usize {
        self.id
    }
}

#[test]
fn test_validate_section_data_id() {
    assert!(validate_section_data_id("Node", 0, -1).is_ok());

    let err = validate_section_data_id("Node", 1, -1);
    assert!(err.is_err());
    assert!(err.unwrap_err().to_string().contains("The Node id must start with 0"));

    assert!(validate_section_data_id("Node", 1, 0).is_ok());
    assert!(validate_section_data_id("Node", 2, 1).is_ok());

    let err = validate_section_data_id("Node", 3, 1);
    assert!(err.is_err());
    assert!(err.unwrap_err().to_string().contains("Node id 3 need be sequential"));

    let err = validate_section_data_id("Node", 1, 1);
    assert!(err.is_err());
    assert!(err.unwrap_err().to_string().contains("Node id 1 need be sequential"));
}

#[test]
fn test_validate_item_id() {
    let items = vec![DummyItem { id: 0 }, DummyItem { id: 1 }];

    assert!(validate_item_id("Node", &items, 0).is_ok());
    assert!(validate_item_id("Node", &items, 1).is_ok());

    let err = validate_item_id("Node", &items, 2);
    assert!(err.is_err());
    assert!(err.unwrap_err().to_string().contains("Integrity error: Node ID 2 does not exist."));

    let mismatched = vec![DummyItem { id: 99 }];
    let err = validate_item_id("Node", &mismatched, 0);
    assert!(err.is_err());
    assert!(err.unwrap_err().to_string().contains("Integrity error: Node ID 0 does not exist."));
}

#[test]
fn parse_integer_error_messages() {
    assert_eq!(
        parse_integer("").unwrap_err().to_string(),
        "Invalid integer: cannot parse integer from empty string ''"
    );
    assert_eq!(
        parse_integer("-5").unwrap_err().to_string(),
        "Invalid integer: invalid digit found in string '-5'"
    );
    assert_eq!(
        parse_integer("99999999999999999999999").unwrap_err().to_string(),
        "Invalid integer: number too large to fit in target type '99999999999999999999999'"
    );
    assert_eq!(parse_integer("+7").unwrap(), 7);
    assert_eq!(parse_integer("007").unwrap(), 7);
}

#[test]
fn parse_float_error_messages() {
    assert_eq!(
        parse_float("").unwrap_err().to_string(),
        "Invalid float: cannot parse float from empty string ''"
    );
    assert_eq!(
        parse_float("1.2.3").unwrap_err().to_string(),
        "Invalid float: invalid float literal '1.2.3'"
    );
    assert_eq!(float_value("1e3"), 1000.0);
    assert_eq!(float_value(".5"), 0.5);
    assert_eq!(float_value("5."), 5.0);
    assert!(float_value("inf").is_infinite());
    assert!(float_value("NaN").is_nan());
    assert!(parse_float("e5").is_err());
    assert!(parse_float(" 1.0").is_err());
}

#[test]
fn line_tracker_without_final_newline() {
    let mut tracker = LineTracker::new("A\n\n  \nB");
    assert_eq!(tracker.read_next_valid_line(), "A\n");
    assert_eq!(tracker.read_next_valid_line(), "B");
    assert_eq!(tracker.current_line(), 4);
    assert_eq!(tracker.read_next_valid_line(), "");
    assert_eq!(tracker.current_line(), 4);
}

#[test]
fn line_tracker_keeps_carriage_returns() {
    let mut tracker = LineTracker::new("# c\r\nX: 1\r\n");
    assert_eq!(tracker.read_next_valid_line(), "X: 1\r\n");
    assert_eq!(tracker.current_line(), 2);
}

#[test]
fn parse_integer_reads_back_decimal_texts() {
    for n in [0usize, 7, 10, 99, 12345, usize::MAX - 1, usize::MAX] {
        assert_eq!(parse_integer(&n.to_string()).unwrap(), n);
    }
}
