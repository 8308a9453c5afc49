use rusk::{parse_edit_args, parse_flexible_ids};

#[test]
fn test_parse_flexible_ids_single_id() {
    let ids = parse_flexible_ids(&["1".to_string()]);
    assert_eq!(ids, vec![1]);
}

#[test]
fn test_parse_flexible_ids_multiple_space_separated() {
    // a single integer per token: every token contributes its identifier
    let ids = parse_flexible_ids(&["1".to_string(), "2".to_string(), "3".to_string()]);
    assert_eq!(ids, vec![1, 2, 3]);
}

#[test]
fn test_parse_flexible_ids_comma_separated() {
    let ids = parse_flexible_ids(&["1,2,3".to_string()]);
    assert_eq!(ids, vec![1, 2, 3]);
}

#[test]
fn test_parse_flexible_ids_mixed_formats() {
    // single integers and comma lists combine, in caller order
    let ids = parse_flexible_ids(&["1".to_string(), "2,3".to_string(), "4".to_string()]);
    assert_eq!(ids, vec![1, 2, 3, 4]);
}

#[test]
fn test_parse_flexible_ids_comma_with_spaces() {
    let ids = parse_flexible_ids(&["1, 2, 3".to_string()]);
    assert_eq!(ids, vec![1, 2, 3]);
}

#[test]
fn test_parse_flexible_ids_invalid_ids_ignored() {
    // tokens that name no identifier are silently dropped
    let ids = parse_flexible_ids(&["1".to_string(), "abc".to_string(), "2".to_string()]);
    assert_eq!(ids, vec![1, 2]);
}

#[test]
fn test_parse_flexible_ids_empty_input() {
    let ids = parse_flexible_ids(&[]);
    assert_eq!(ids, vec![] as Vec<u8>);
}

#[test]
fn test_parse_flexible_ids_empty_strings() {
    // empty tokens name no identifier
    let ids = parse_flexible_ids(&["".to_string(), "1".to_string(), "".to_string()]);
    assert_eq!(ids, vec![1]);
}

#[test]
fn test_parse_flexible_ids_max_u8() {
    let ids = parse_flexible_ids(&["255".to_string()]);
    assert_eq!(ids, vec![255]);
}

#[test]
fn test_parse_flexible_ids_comma_separated_with_invalid() {
    let ids = parse_flexible_ids(&["1,abc,2,xyz,3".to_string()]);
    assert_eq!(ids, vec![1, 2, 3]);
}

#[test]
fn test_parse_flexible_ids_large_numbers_ignored() {
    // values above 255 name no identifier
    let ids = parse_flexible_ids(&["1".to_string(), "256".to_string(), "2".to_string()]);
    assert_eq!(ids, vec![1, 2]);
}

#[test]
fn test_parse_flexible_ids_negative_numbers_ignored() {
    // negative numbers name no identifier
    let ids = parse_flexible_ids(&["1".to_string(), "-1".to_string(), "2".to_string()]);
    assert_eq!(ids, vec![1, 2]);
}

#[test]
fn test_parse_flexible_ids_duplicate_ids_preserved() {
    // duplicates are kept positionally
    let ids = parse_flexible_ids(&["1".to_string(), "1".to_string(), "2".to_string()]);
    assert_eq!(ids, vec![1, 1, 2]);
}

#[test]
fn test_parse_flexible_ids_with_space_before_comma() {
    // Handle case like "1,5,4 ,6" which becomes ["1,5,4", " ,6"]
    let ids = parse_flexible_ids(&["1,5,4".to_string(), " ,6".to_string()]);
    assert_eq!(ids, vec![1, 5, 4, 6]);
}

#[test]
fn test_parse_flexible_ids_with_comma_at_start() {
    // Handle case like "1,2" ",3" ",4"
    let ids = parse_flexible_ids(&["1,2".to_string(), ",3".to_string(), ",4".to_string()]);
    assert_eq!(ids, vec![1, 2, 3, 4]);
}

#[test]
fn test_parse_flexible_ids_multiple_comma_args() {
    // Handle case with multiple comma-separated arguments
    let ids = parse_flexible_ids(&["1,2".to_string(), "3,4".to_string(), "5,6".to_string()]);
    assert_eq!(ids, vec![1, 2, 3, 4, 5, 6]);
}

#[test]
fn test_parse_flexible_ids_empty_parts_in_comma_separated() {
    // Handle case with empty parts: "1,,3"
    let ids = parse_flexible_ids(&["1,,3".to_string()]);
    assert_eq!(ids, vec![1, 3]);
}

#[test]
fn test_parse_flexible_ids_empty_parts_with_spaces() {
    // Handle case with empty parts with spaces: "1, ,3"
    let ids = parse_flexible_ids(&["1, ,3".to_string()]);
    assert_eq!(ids, vec![1, 3]);
}

#[test]
fn test_parse_edit_args_date_only_long_flag() {
    let (ids, text) = parse_edit_args(vec![
        "3".to_string(),
        "--date".to_string(),
        "2025-12-31".to_string(),
    ]);
    assert_eq!(ids, vec![3]);
    assert!(text.is_none());
}

#[test]
fn test_parse_edit_args_only_id_text_none() {
    let (ids, text) = parse_edit_args(vec!["3".to_string()]);
    assert_eq!(ids, vec![3]);
    assert!(text.is_none());
}

#[test]
fn test_parse_edit_args_interactive_short_flag() {
    let (ids, text) = parse_edit_args(vec!["3".to_string(), "-d".to_string()]);
    assert_eq!(ids, vec![3]);
    assert!(text.is_none());
}

#[test]
fn test_parse_edit_args_mixed_ids_and_text_with_date() {
    let (ids, text) = parse_edit_args(vec![
        "1".to_string(),
        "2".to_string(),
        "new".to_string(),
        "text".to_string(),
        "--date".to_string(),
        "2025-06-15".to_string(),
    ]);
    assert_eq!(ids, vec![1, 2]);
    assert_eq!(text, Some(vec!["new".to_string(), "text".to_string()]));
}

#[test]
fn test_parse_edit_args_comma_separated_ids_and_text_with_short_date() {
    let (ids, text) = parse_edit_args(vec![
        "1,2,3".to_string(),
        "some".to_string(),
        "words".to_string(),
        "-d".to_string(),
        "2025-01-01".to_string(),
    ]);
    assert_eq!(ids, vec![1, 2, 3]);
    assert_eq!(text, Some(vec!["some".to_string(), "words".to_string()]));
}

#[test]
fn test_parse_edit_args_comma_separated_ids_no_text() {
    let (ids, text) = parse_edit_args(vec!["1,2,3".to_string()]);
    assert_eq!(ids, vec![1, 2, 3]);
    assert!(text.is_none());
}

#[test]
fn test_parse_edit_args_text_only_words() {
    let (ids, text) = parse_edit_args(vec![
        "5".to_string(),
        "new".to_string(),
        "title".to_string(),
        "here".to_string(),
    ]);
    assert_eq!(ids, vec![5]);
    assert_eq!(
        text,
        Some(vec![
            "new".to_string(),
            "title".to_string(),
            "here".to_string(),
        ])
    );
}

#[test]
fn test_parse_edit_args_short_date_without_value_then_text_ignored_as_date_value() {
    // the token after a bare -d is read as the date value and skipped
    let (ids, text) = parse_edit_args(vec!["7".to_string(), "-d".to_string(), "some".to_string()]);
    assert_eq!(ids, vec![7]);
    assert!(text.is_none());
}

#[test]
fn test_parse_edit_args_several_plain_ids() {
    // plain integers are consumed as identifiers until the first
    // token that is none
    let (ids, text) = parse_edit_args(vec!["1".to_string(), "2".to_string(), "go".to_string()]);
    assert_eq!(ids, vec![1, 2]);
    assert_eq!(text, Some(vec!["go".to_string()]));
}
