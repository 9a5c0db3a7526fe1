use archi_view_importer::selection::SelectionError;
use archi_view_importer::selection::parse_selection;

#[test]
fn test_parse_selection_single() {
    let result = parse_selection("1", 5).unwrap();
    assert_eq!(result, vec![1]);
}

#[test]
fn test_parse_selection_multiple() {
    let result = parse_selection("1,3,5", 5).unwrap();
    assert_eq!(result, vec![1, 3, 5]);
}

#[test]
fn test_parse_selection_range() {
    let result = parse_selection("1-3", 5).unwrap();
    assert_eq!(result, vec![1, 2, 3]);
}

#[test]
fn test_parse_selection_all() {
    let result = parse_selection("all", 3).unwrap();
    assert_eq!(result, vec![1, 2, 3]);
}

#[test]
fn test_parse_selection_invalid() {
    assert!(parse_selection("0", 5).is_err());
    assert!(parse_selection("6", 5).is_err());
    assert!(parse_selection("1,6", 5).is_err());
    assert!(parse_selection("invalid", 5).is_err());
}

#[test]
fn test_parse_selection_mixed_ranges() {
    let result = parse_selection("1,3,5-7", 8).unwrap();
    assert_eq!(result, vec![1, 3, 5, 6, 7]);
}

#[test]
fn test_parse_selection_all_uppercase_and_padding() {
    let result = parse_selection("  ALL ", 4).unwrap();
    assert_eq!(result, vec![1, 2, 3, 4]);
}

#[test]
fn test_parse_selection_zero_rejected() {
    assert_eq!(parse_selection("0", 8), Err(SelectionError::InvalidNumber(0)));
}

#[test]
fn test_parse_selection_out_of_range_bound_rejected() {
    assert_eq!(parse_selection("5-9", 8), Err(SelectionError::InvalidRange(5, 9)));
}

#[test]
fn test_parse_selection_reversed_range_rejected() {
    assert_eq!(parse_selection("7-5", 8), Err(SelectionError::InvalidRange(7, 5)));
}

#[test]
fn test_parse_selection_not_a_number() {
    assert_eq!(parse_selection("two", 8), Err(SelectionError::NotANumber));
    assert_eq!(parse_selection("1,x-3", 8), Err(SelectionError::NotANumber));
}

#[test]
fn test_parse_selection_duplicates_collapse_and_sort() {
    let result = parse_selection("3,1,3,2-3", 5).unwrap();
    assert_eq!(result, vec![1, 2, 3]);
}

#[test]
fn test_parse_selection_empty_pieces_skipped() {
    let result = parse_selection("1,,2, ", 5).unwrap();
    assert_eq!(result, vec![1, 2]);
}

#[test]
fn test_parse_selection_double_dash_piece_ignored() {
    let result = parse_selection("1-2-3", 5).unwrap();
    assert_eq!(result, Vec::<usize>::new());
}

#[test]
fn test_parse_selection_plus_prefix_accepted() {
    let result = parse_selection("+2", 5).unwrap();
    assert_eq!(result, vec![2]);
}

#[test]
fn test_parse_selection_overflowing_number_rejected() {
    assert_eq!(parse_selection("99999999999999999999999999", 5), Err(SelectionError::NotANumber));
}
