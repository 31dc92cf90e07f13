use blue_hal::utilities::iterator::Unique;
use blue_hal::utilities::iterator::UntilSequence;

#[test]
fn all_unique_in_various_scenarios() {
    assert!([3, 4, 1, 5].as_slice().all_unique());
    assert!(![1, 2, 3, 3, 2].as_slice().all_unique());
    assert!(["fish", "foot", "fly", "foresight"].as_slice().all_unique());
    assert!(![None, Some(3), Some(5), None].as_slice().all_unique());
}

#[test]
fn iterating_until_sequence() {
    let values: [u8; 8] = [3, 4, 1, 5, 2, 3, 7, 8];
    let sequence: [u8; 3] = [2, 3, 7];

    let expected: Vec<u8> = vec![3, 4, 1, 5];
    assert_eq!(expected, values.as_slice().until_sequence(&sequence).collect());
    assert!(values.as_slice().until_sequence(&sequence).contains_sequence());
}

#[test]
fn iterating_until_partial_sequence() {
    let values: [u8; 6] = [3, 4, 1, 5, 2, 3];
    let sequence: [u8; 3] = [2, 3, 7];

    let expected: Vec<u8> = vec![3, 4, 1, 5, 2, 3];
    assert_eq!(expected, values.as_slice().until_sequence(&sequence).collect());
}

#[test]
fn iterating_with_partial_sequence_in_between() {
    let values: [u8; 6] = [3, 4, 1, 5, 2, 3];
    let sequence: [u8; 3] = [1, 5, 7];

    let expected: Vec<u8> = vec![3, 4, 1, 5, 2, 3];
    assert_eq!(expected, values.as_slice().until_sequence(&sequence).collect());
}

#[test]
fn iterating_until_sequence_not_found() {
    let values: [u8; 6] = [3, 4, 1, 5, 2, 3];
    let sequence: [u8; 3] = [3, 3, 3];

    let expected: Vec<u8> = vec![3, 4, 1, 5, 2, 3];
    assert_eq!(expected, values.as_slice().until_sequence(&sequence).collect());
}

#[test]
fn all_unique_on_few_items() {
    let none: [u8; 0] = [];
    assert!(none.as_slice().all_unique());
    assert!([7u8].as_slice().all_unique());
    assert!(![7u8, 7].as_slice().all_unique());
    assert!(![1u8, 2, 1].as_slice().all_unique());
}

#[test]
fn iterator_hands_out_item_by_item() {
    let values: [u8; 5] = [1, 2, 9, 2, 3];
    let sequence: [u8; 2] = [2, 3];
    let mut iterator = values.as_slice().until_sequence(&sequence);
    assert_eq!(iterator.next(), Some(1));
    assert_eq!(iterator.next(), Some(2));
    assert_eq!(iterator.next(), Some(9));
    assert_eq!(iterator.next(), None);
    assert_eq!(iterator.next(), None);
    assert!(values.as_slice().until_sequence(&sequence).contains_sequence());
}

#[test]
fn a_match_does_not_start_within_a_broken_match() {
    let values: [u8; 4] = [2, 2, 3, 7];
    let sequence: [u8; 3] = [2, 3, 7];
    let expected: Vec<u8> = vec![2, 2, 3, 7];
    assert_eq!(expected, values.as_slice().until_sequence(&sequence).collect());
    assert!(!values.as_slice().until_sequence(&sequence).contains_sequence());
}

#[test]
fn an_empty_sequence_is_found_at_once() {
    let values: [u8; 3] = [1, 2, 3];
    let sequence: [u8; 0] = [];
    let expected: Vec<u8> = vec![];
    assert_eq!(expected, values.as_slice().until_sequence(&sequence).collect());
    assert!(values.as_slice().until_sequence(&sequence).contains_sequence());
}

#[test]
fn an_empty_input_holds_no_sequence() {
    let values: [u8; 0] = [];
    let sequence: [u8; 1] = [1];
    let expected: Vec<u8> = vec![];
    assert_eq!(expected, values.as_slice().until_sequence(&sequence).collect());
    assert!(!values.as_slice().until_sequence(&sequence).contains_sequence());
}
