use fst_indexer::{ExtractorType, Hit, Index, SearchOpts, SourceFile};

fn source(name: &str, text: &str) -> SourceFile {
    SourceFile { filename: name.to_string(), content: Some(text.to_string()) }
}

fn build(files: Vec<SourceFile>, kind: ExtractorType) -> Index {
    Index::build(&files, &kind).unwrap().into_index()
}

#[test]
fn test_build_and_search() {
    let files = vec![source("test-2024-01-15.txt", "hello world\nfoo bar\nhello again\n")];
    let index = build(files, ExtractorType::Txt);

    // AND search
    let hits = index.search("hello", &SearchOpts::default()).unwrap();
    assert_eq!(hits.len(), 2);

    let hits = index.search("hello world", &SearchOpts::default()).unwrap();
    assert_eq!(hits.len(), 1);

    // OR search: union of all word matches (deduplicated)
    let opts = SearchOpts { any: true, ..Default::default() };
    let hits = index.search("hello world", &opts).unwrap();
    // "hello" hits lines 0 and 2, "world" hits line 0 → union = 2 unique hits
    assert_eq!(hits.len(), 2);

    // Resolve
    let entry = index.resolve(&hits[0]).unwrap();
    assert_eq!(entry.filename, "test-2024-01-15.txt");
    assert_eq!(entry.date, "2024-01-15");
    assert_eq!(entry.source, "txt");
}

#[test]
fn test_search_empty_query() {
    let index = build(vec![source("data.txt", "hello world")], ExtractorType::Txt);
    let hits = index.search("", &SearchOpts::default()).unwrap();
    assert!(hits.is_empty());
}

#[test]
fn test_search_no_match() {
    let index = build(vec![source("data.txt", "hello world")], ExtractorType::Txt);
    let hits = index.search("nonexistent", &SearchOpts::default()).unwrap();
    assert!(hits.is_empty());
}

#[test]
fn test_resolve_out_of_range() {
    let index = build(vec![source("data.txt", "hello world")], ExtractorType::Txt);
    let hit = Hit { file_idx: 999, entry_idx: 0 };
    assert!(index.resolve(&hit).is_none());
}

#[test]
fn test_extractor_default_jsonl_content_field() {
    let files = vec![source("log-2024-01-15.jsonl", r#"{"content": "hello world", "level": "info"}"#)];
    let index = build(files, ExtractorType::Jsonl);
    let hits = index.search("hello", &SearchOpts::default()).unwrap();
    assert_eq!(hits.len(), 1);
}

#[test]
fn test_extractor_jsonl_raw_line_fallback() {
    let files = vec![source("log-2024-01-15.jsonl", "raw line without content field\n")];
    let index = build(files, ExtractorType::Jsonl);
    let hits = index.search("raw", &SearchOpts::default()).unwrap();
    assert_eq!(hits.len(), 1);
}

#[test]
fn hits_are_ordered_last_file_first_then_by_entry() {
    let files = vec![
        source("a.txt", "apple\nbanana\napple pie\n"),
        source("b.txt", "apple\nno fruit\n"),
        source("c.txt", "nothing\napple tree\n"),
    ];
    let index = build(files, ExtractorType::Txt);
    let hits = index.search("apple", &SearchOpts::default()).unwrap();
    let pairs: Vec<(u32, u32)> = hits.iter().map(|h| (h.file_idx, h.entry_idx)).collect();
    assert_eq!(pairs, vec![(2, 1), (1, 0), (0, 0), (0, 2)]);
}

#[test]
fn max_results_truncates_in_order() {
    let files = vec![source("a.txt", "apple\napple\napple\n"), source("b.txt", "apple\n")];
    let index = build(files, ExtractorType::Txt);
    let opts = SearchOpts { max_results: 2, any: false };
    let hits = index.search("apple", &opts).unwrap();
    assert_eq!(hits, vec![Hit { file_idx: 1, entry_idx: 0 }, Hit { file_idx: 0, entry_idx: 0 }]);
    let none = SearchOpts { max_results: 0, any: true };
    assert!(index.search("apple", &none).unwrap().is_empty());
}

#[test]
fn and_needs_every_word_or_needs_one() {
    let files = vec![source("a.txt", "red apple\ngreen apple\nred car\n")];
    let index = build(files, ExtractorType::Txt);
    let and = index.search("red apple", &SearchOpts::default()).unwrap();
    assert_eq!(and, vec![Hit { file_idx: 0, entry_idx: 0 }]);
    let or = index.search("red apple", &SearchOpts { max_results: 20, any: true }).unwrap();
    assert_eq!(or.len(), 3);
    // a word without hits empties an AND search but not an OR search
    assert!(index.search("red zebra", &SearchOpts::default()).unwrap().is_empty());
    let or2 = index.search("red zebra", &SearchOpts { max_results: 20, any: true }).unwrap();
    assert_eq!(or2.len(), 2);
}

#[test]
fn search_is_case_insensitive_and_word_exact() {
    let index = build(vec![source("a.txt", "Deployment FAILED\ndeploy ok\n")], ExtractorType::Txt);
    let hits = index.search("deployment failed", &SearchOpts::default()).unwrap();
    assert_eq!(hits, vec![Hit { file_idx: 0, entry_idx: 0 }]);
    // no prefix matching: "deploy" is its own word
    let hits = index.search("deploy", &SearchOpts::default()).unwrap();
    assert_eq!(hits, vec![Hit { file_idx: 0, entry_idx: 1 }]);
}

#[test]
fn unreadable_file_is_listed_without_entries() {
    let files = vec![
        SourceFile { filename: "broken-2021-03-04.txt".to_string(), content: None },
        source("ok.txt", "hello"),
    ];
    let built = Index::build(&files, &ExtractorType::Txt).unwrap();
    assert_eq!(built.entry_counts(), &vec![0usize, 1]);
    assert_eq!(built.files()[0].date, "2021-03-04");
    let index = built.into_index();
    let hits = index.search("hello", &SearchOpts::default()).unwrap();
    assert_eq!(hits, vec![Hit { file_idx: 1, entry_idx: 0 }]);
    assert_eq!(index.resolve(&hits[0]).unwrap().filename, "ok.txt");
}

#[test]
fn key_count_counts_distinct_keys() {
    let built =
        Index::build(&vec![source("a.txt", "hello hello world\nhello\n")], &ExtractorType::Txt).unwrap();
    // hello@0, world@0, hello@1
    assert_eq!(built.key_count(), 3);
}

#[test]
fn reopening_the_fst_bytes_gives_the_same_index() {
    let built = Index::build(&vec![source("a.txt", "one two\nthree\n")], &ExtractorType::Txt).unwrap();
    let bytes = built.fst_bytes().clone();
    let set = fst::Set::new(bytes.clone()).unwrap();
    assert_eq!(set.len(), 3);
    let manifest = fst_indexer::Manifest { files: built.files().clone() };
    let index = Index::open(bytes, manifest).unwrap();
    let hits = index.search("three", &SearchOpts::default()).unwrap();
    assert_eq!(hits, vec![Hit { file_idx: 0, entry_idx: 1 }]);
}

#[test]
fn default_search_options() {
    let opts = SearchOpts::default();
    assert_eq!(opts.max_results, 20);
    assert!(!opts.any);
}

#[test]
fn word_cap_stops_reading_a_word_after_cap_plus_one_hits() {
    let files = vec![source("a.txt", "apple\napple\napple\n"), source("b.txt", "apple\napple\n")];
    let index = build(files, ExtractorType::Txt);
    let opts = SearchOpts::default();
    // keys are read file by file, entry by entry: the first three are those of a.txt
    let capped = index.search_with_word_cap("apple", &opts, 2).unwrap();
    assert_eq!(
        capped,
        vec![
            Hit { file_idx: 0, entry_idx: 0 },
            Hit { file_idx: 0, entry_idx: 1 },
            Hit { file_idx: 0, entry_idx: 2 },
        ]
    );
    let all = index.search("apple", &opts).unwrap();
    assert_eq!(all.len(), 5);
    assert_eq!(all[0], Hit { file_idx: 1, entry_idx: 0 });
    // a cap above every word's hit count changes nothing
    assert_eq!(index.search_with_word_cap("apple", &opts, 10_000).unwrap(), all);
}

#[test]
fn word_cap_applies_to_each_word_before_the_and() {
    let files = vec![source("a.txt", "pear\npear\npear apple\n")];
    let index = build(files, ExtractorType::Txt);
    let opts = SearchOpts::default();
    // "pear" is read up to its first two hits, entries 0 and 1; none has "apple"
    assert!(index.search_with_word_cap("pear apple", &opts, 1).unwrap().is_empty());
    assert_eq!(
        index.search("pear apple", &opts).unwrap(),
        vec![Hit { file_idx: 0, entry_idx: 2 }]
    );
    let or = SearchOpts { max_results: 20, any: true };
    assert_eq!(index.search_with_word_cap("pear apple", &or, 1).unwrap().len(), 3);
}

#[test]
fn open_rejects_bytes_that_fail_the_fst_header_checks() {
    let empty = || fst_indexer::Manifest { files: Vec::new() };
    // too short
    assert!(matches!(Index::open(vec![0u8; 10], empty()), Err(fst_indexer::IndexError::Fst)));
    // version 0
    assert!(matches!(Index::open(vec![0u8; 40], empty()), Err(fst_indexer::IndexError::Fst)));
    // version 3, root address 0, but longer than an empty set's 36 bytes
    let mut bytes = vec![0u8; 40];
    bytes[0] = 3;
    assert!(matches!(Index::open(bytes, empty()), Err(fst_indexer::IndexError::Fst)));
    // an empty set as the builder writes it opens
    let built = Index::build(&vec![], &ExtractorType::Txt).unwrap();
    assert!(fst_indexer::fst_header_fits(built.fst_bytes()));
    let index = Index::open(built.fst_bytes().clone(), empty()).unwrap();
    assert!(index.search("hello", &SearchOpts::default()).unwrap().is_empty());
}

#[test]
fn search_counts_the_hits_before_the_cut() {
    let files = vec![source("a.txt", "apple\napple\napple\n"), source("b.txt", "apple pie\n")];
    let index = build(files, ExtractorType::Txt);
    let opts = SearchOpts { max_results: 2, any: false };
    let (hits, total) = index.search_with_total("apple", &opts).unwrap();
    assert_eq!(total, 4);
    assert_eq!(hits, index.search("apple", &opts).unwrap());
    assert_eq!(hits.len(), 2);
    let (none, zero) = index.search_with_total("", &opts).unwrap();
    assert!(none.is_empty());
    assert_eq!(zero, 0);
}

#[test]
fn a_smaller_limit_gives_a_prefix() {
    let files = vec![source("a.txt", "kiwi\nkiwi\nkiwi\n"), source("b.txt", "kiwi\nkiwi\n")];
    let index = build(files, ExtractorType::Txt);
    let all = index.search("kiwi", &SearchOpts { max_results: 10, any: true }).unwrap();
    for m in 0..=6 {
        let some = index.search("kiwi", &SearchOpts { max_results: m, any: true }).unwrap();
        assert_eq!(some, all[..m.min(all.len())].to_vec());
    }
}
