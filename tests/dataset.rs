use knapsack_ga::dataset::{check_instance, parse_scenario, read_number};
use knapsack_ga::scenario::ScenarioError;
use knapsack_ga::types::{Container, Item};

fn bytes(s: &str) -> Vec<u8> {
    s.as_bytes().to_vec()
}

#[test]
fn parse_reads_container_and_items() {
    let text = bytes("10 5\n2\n4 3 5\n1 1 7\n");
    let (container, items) = parse_scenario(&text).unwrap();
    assert_eq!(container, Container::new(10, 5));
    assert_eq!(items, vec![Item::new(4, 3, 5), Item::new(1, 1, 7)]);
}

#[test]
fn parse_ignores_trailing_text_and_mixed_whitespace() {
    let text = bytes("\t 3\r\n4 1   +2 2 -9 extra words");
    let (container, items) = parse_scenario(&text).unwrap();
    assert_eq!(container, Container::new(3, 4));
    assert_eq!(items, vec![Item::new(2, 2, -9)]);
}

#[test]
fn parse_negative_count_means_no_items() {
    let (container, items) = parse_scenario(&bytes("6 6 -3")).unwrap();
    assert_eq!(container, Container::new(6, 6));
    assert!(items.is_empty());
}

#[test]
fn parse_rejects_missing_or_bad_numbers() {
    assert_eq!(parse_scenario(&bytes("")), Err(ScenarioError::Malformed));
    assert_eq!(parse_scenario(&bytes("10 5")), Err(ScenarioError::Malformed));
    assert_eq!(parse_scenario(&bytes("10 5 2 1 1 1 1 1")), Err(ScenarioError::Malformed));
    assert_eq!(parse_scenario(&bytes("10 x5 0")), Err(ScenarioError::Malformed));
    assert_eq!(parse_scenario(&bytes("10 5 1 1 - 1")), Err(ScenarioError::Malformed));
}

#[test]
fn read_number_limits() {
    assert_eq!(read_number(&bytes("9223372036854775807"), 0), Some((i64::MAX, 19)));
    assert_eq!(read_number(&bytes(" -9223372036854775808 "), 0), Some((i64::MIN, 21)));
    assert_eq!(read_number(&bytes("9223372036854775808"), 0), None);
    assert_eq!(read_number(&bytes("123456789012345678901234567890"), 0), None);
    assert_eq!(read_number(&bytes("12a"), 0), None);
    assert_eq!(read_number(&bytes("+"), 0), None);
    assert_eq!(read_number(&bytes("007 8"), 0), Some((7, 3)));
    assert_eq!(read_number(&bytes("007 8"), 3), Some((8, 5)));
    assert_eq!(read_number(&bytes("007 8"), 5), None);
}

#[test]
fn check_instance_accepts_valid_instance() {
    let items = vec![Item::new(1, 2, 3), Item::new(4, 5, 6)];
    assert_eq!(check_instance(&Container::new(3, 3), &items), Ok(()));
    assert_eq!(check_instance(&Container::new(3, 3), &vec![]), Ok(()));
}

#[test]
fn check_instance_rejects_non_positive_values() {
    let good = vec![Item::new(1, 2, 3)];
    assert_eq!(check_instance(&Container::new(0, 3), &good), Err(ScenarioError::NonPositive));
    assert_eq!(check_instance(&Container::new(3, -1), &good), Err(ScenarioError::NonPositive));
    let bad = vec![Item::new(1, 2, 3), Item::new(1, 0, 3)];
    assert_eq!(check_instance(&Container::new(3, 3), &bad), Err(ScenarioError::NonPositive));
    let no_benefit = vec![Item::new(1, 2, 0)];
    assert_eq!(check_instance(&Container::new(3, 3), &no_benefit), Err(ScenarioError::NonPositive));
}

#[test]
fn check_instance_rejects_overflowing_totals() {
    let items = vec![Item::new(1, 1, i64::MAX), Item::new(1, 1, 1)];
    assert_eq!(check_instance(&Container::new(3, 3), &items), Err(ScenarioError::TooLarge));
    let huge = Container::new(i64::MAX, 2);
    assert_eq!(check_instance(&huge, &vec![]), Err(ScenarioError::TooLarge));
    let one = vec![Item::new(1, 1, i64::MAX)];
    assert_eq!(check_instance(&Container::new(1, 1), &one), Ok(()));
}
