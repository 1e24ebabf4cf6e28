//! Tests of the request-side parsers and small helpers.

use bookmarks::requests::{favorite_path, page_count, parse_id_list, parse_tag_list};
use bookmarks::types::StoreError;

#[test]
fn id_lists_parse_from_query_strings() {
    assert_eq!(parse_id_list("id=1").unwrap(), vec![1]);
    assert_eq!(parse_id_list("id=3&id=17&x=42").unwrap(), vec![3, 17, 42]);
    assert_eq!(parse_id_list("id=-5").unwrap(), vec![-5]);
    assert!(matches!(parse_id_list("id=abc"), Err(StoreError::Validation)));
    assert!(matches!(parse_id_list(""), Err(StoreError::Validation)));
    assert!(matches!(parse_id_list("id=1&broken"), Err(StoreError::Validation)));
    assert!(matches!(parse_id_list("id="), Err(StoreError::Validation)));
}

#[test]
fn long_id_tokens_are_rejected() {
    assert_eq!(parse_id_list("id=123456789012345678").unwrap(), vec![123456789012345678]);
    assert!(matches!(parse_id_list("id=1234567890123456789"), Err(StoreError::Validation)));
}

#[test]
fn tag_lists_split_on_spaces() {
    let r = parse_tag_list("one  two three ");
    assert_eq!(r, vec!["one".to_string(), "two".to_string(), "three".to_string()]);
    assert_eq!(parse_tag_list(""), Vec::<String>::new());
}

#[test]
fn page_counts_round_up() {
    assert_eq!(page_count(0, 200), 0);
    assert_eq!(page_count(1, 200), 1);
    assert_eq!(page_count(200, 200), 1);
    assert_eq!(page_count(201, 200), 2);
    assert_eq!(page_count(7, 3), 3);
}

#[test]
fn favorite_paths_prefix_the_tag_name() {
    assert_eq!(favorite_path("work"), "/tags/work");
}
