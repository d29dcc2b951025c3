use fst_indexer::{can_parse_transcript, extract_transcript, extract_jsonl, extract_txt, parse_transcript, FilePattern};

const TRANSCRIPT: &str = "Meeting: Weekly Sync\nDate: 2024-03-05 10:00 UTC\n=====\nAlice (00:00:05)\nHello everyone.\nLet's start.\n\nBob Smith (00:01:10)\n  Thanks Alice  \n";

#[test]
fn transcript_header_and_turns() {
    let t = parse_transcript(TRANSCRIPT);
    assert_eq!(t.meeting.as_deref(), Some("Weekly Sync"));
    assert_eq!(t.meeting_date.as_deref(), Some("2024-03-05"));
    assert_eq!(t.turns.len(), 2);
    assert_eq!(t.turns[0].speaker, "Alice");
    assert_eq!(t.turns[0].timestamp, "00:00:05");
    assert_eq!(t.turns[0].text, "Hello everyone.\nLet's start.");
    assert_eq!(t.turns[1].speaker, "Bob Smith");
    assert_eq!(t.turns[1].text, "Thanks Alice");
}

#[test]
fn transcript_without_header_rule() {
    // without a === line there is no header: the Meeting line is ignored
    let t = parse_transcript("Meeting: X\nAnn (12:00:00)\nhi\n");
    assert_eq!(t.meeting, None);
    assert_eq!(t.turns.len(), 1);
    assert_eq!(t.turns[0].speaker, "Ann");
    assert_eq!(t.turns[0].text, "hi");
}

#[test]
fn transcript_short_date_and_bad_timestamps() {
    let t = parse_transcript("Date: 2024\nDate: 2025-01-01\n===\nAnn (1:2)\nBen (12:00:00)\nok\n");
    assert_eq!(t.meeting_date.as_deref(), Some("2024"));
    // "(1:2)" is no timestamp; text before the first speaker is dropped
    assert_eq!(t.turns.len(), 1);
    assert_eq!(t.turns[0].speaker, "Ben");
}

#[test]
fn transcript_extractor_entries() {
    let (entry, texts) = extract_transcript("call-2023-09-09.txt", Some(TRANSCRIPT));
    assert_eq!(entry.title, "Weekly Sync");
    assert_eq!(entry.date, "2024-03-05");
    assert_eq!(entry.source, "transcript");
    assert_eq!(texts, vec!["Alice: Hello everyone.\nLet's start.", "Bob Smith: Thanks Alice"]);
    let (entry, texts) = extract_transcript("call-2023-09-09.txt", Some("Ann (00:00:01)\nhi\n"));
    assert_eq!(entry.title, "call-2023-09-09.txt");
    assert_eq!(entry.date, "2023-09-09");
    assert_eq!(texts, vec!["Ann: hi"]);
}

#[test]
fn jsonl_extractor_entries() {
    let text = "{\"content\": \"first\"}\n\n   \n{\"content\": 3}\nnot json\r\n{\"other\": \"x\"}";
    let (entry, texts) = extract_jsonl("e.jsonl", Some(text));
    assert_eq!(entry.source, "jsonl");
    assert_eq!(entry.date, "?");
    assert_eq!(texts, vec!["first", "{\"content\": 3}", "not json", "{\"other\": \"x\"}"]);
}

#[test]
fn txt_extractor_lines() {
    let (entry, texts) = extract_txt("n.txt", Some("a\r\nb\n\nc"));
    assert_eq!(entry.title, "n.txt");
    assert_eq!(texts, vec!["a", "b", "", "c"]);
    let (_, none) = extract_txt("n.txt", None);
    assert!(none.is_empty());
}

#[test]
fn file_patterns() {
    let p = FilePattern::new("*.txt").unwrap();
    assert!(p.matches("notes.txt"));
    assert!(!p.matches("notes.jsonl"));
    assert!(FilePattern::new("[").is_err());
}

#[test]
fn transcript_date_must_be_cut_between_characters() {
    assert!(can_parse_transcript("Date: 2024-01-15 10:00\n===\n"));
    // short values and texts without a header date are taken as they are
    assert!(can_parse_transcript("Date: 2024\n===\n"));
    assert!(can_parse_transcript("Ann (12:00:00)\nhi\n"));
    // 'é' takes the tenth and eleventh bytes
    assert!(!can_parse_transcript("Date: 2024-01-1é\n===\n"));
    // only the first Date: line counts, and only in the header
    assert!(can_parse_transcript("Date: 2024-01-15\nDate: 2024-01-1é\n===\n"));
    assert!(can_parse_transcript("Meeting: M\n===\nDate: 2024-01-1é\n"));
}

#[test]
fn turns_follow_the_speaker_lines() {
    let t = parse_transcript(
        "Meeting: M\n===\nstray line\nAnn (10:00:00)\n  first\n\nsecond  \nBob (PM) (10:01:00)\nreply\nAnn (10:02:00)\n",
    );
    assert_eq!(t.turns.len(), 3);
    assert_eq!(t.turns[0].speaker, "Ann");
    assert_eq!(t.turns[0].text, "first\n\nsecond");
    assert_eq!(t.turns[1].speaker, "Bob (PM)");
    assert_eq!(t.turns[1].timestamp, "10:01:00");
    assert_eq!(t.turns[1].text, "reply");
    assert_eq!(t.turns[2].text, "");
    for turn in &t.turns {
        assert_eq!(turn.text, turn.text.trim());
    }
}
