use fst_indexer::{date_from_file_name, date_from_path, is_date_prefix};

#[test]
fn test_is_date_prefix_valid() {
    assert!(is_date_prefix(b"2024-01-15"));
}

#[test]
fn test_is_date_prefix_invalid() {
    assert!(!is_date_prefix(b"2024/01/15"));
    assert!(!is_date_prefix(b"short"));
}

#[test]
fn test_date_from_path_matches() {
    let p = "/some/logs/2024-01-15_events.jsonl";
    assert_eq!(date_from_path(p), "2024-01-15");
}

#[test]
fn test_date_from_path_no_match() {
    let p = "/some/logs/no_date_here.jsonl";
    assert_eq!(date_from_path(p), "?");
}

#[test]
fn date_prefix_longer_input() {
    assert!(is_date_prefix(b"1999-12-31 and more"));
    assert!(!is_date_prefix(b"1999-12-3"));
}

#[test]
fn date_first_occurrence_wins() {
    assert_eq!(date_from_file_name("a-2023-05-06-b-2024-07-08.txt"), "2023-05-06");
}

#[test]
fn date_only_in_file_name() {
    assert_eq!(date_from_path("/2024-01-15/notes.txt"), "?");
    assert_eq!(date_from_path("/"), "?");
}

#[test]
fn date_after_non_ascii() {
    assert_eq!(date_from_file_name("réunion-2022-02-03.txt"), "2022-02-03");
}
