//! Extractors: turning the text of a source file into a manifest entry and
//! the list of text entries that get indexed.
use vstd::prelude::*;
use crate::text::{text_lines, trimmed, split_lines, chars_of, trim_bounds, string_from_chars, lemma_filter_push};
use crate::date::{date_from_file_name, file_name_date};
use crate::index::{FileEntry, EntryView};
use crate::tokenize::string_views;
use crate::transcript::{
    parse_transcript, transcript_of, transcript_date_cuttable, TurnView, Turn, opt_view,
};

verus! {

/// How the entries of a source file are found.
#[derive(Debug, Clone, Copy, PartialEq, Eq, Structural)]
pub enum ExtractorType {
    /// JSONL files: each JSON line is parsed; 'content' field used if present, else whole line
    Jsonl,
    /// Plain text files: each line is one entry
    Txt,
    /// Tactiq transcript .txt files: speaker turns parsed and indexed
    Transcript,
}

/// A source file as read: its file name, and its text (`None` when it could
/// not be read as UTF-8 text).
pub struct SourceFile {
    pub filename: String,
    pub content: Option<String>,
}

// ----- What the extractors produce -----

/// The string value of the `content` field of a line read as a JSON object
/// (`serde_json::from_str::<Value>`, then `get("content")`, then `as_str`),
/// or `None` when the line is not JSON or has no such string field.
pub uninterp spec fn json_content_field(line: Seq<char>) -> Option<Seq<char>>;

/// Parses the line with `serde_json` and gives the string in its `content`
/// field; the result is exactly what `json_content_field` names.
#[verifier::external_body]
fn json_content(line: &str) -> (res: Option<String>)
    ensures
        match res {
            Some(t) => json_content_field(line@) == Some(t@),
            None => json_content_field(line@) is None,
        },
{
    serde_json::from_str::<serde_json::Value>(line).ok().and_then(
        |v| v.get("content").and_then(|c| c.as_str()).map(|c| c.to_string()),
    )
}

/// A line that is empty or all whitespace.
pub open spec fn is_blank(line: Seq<char>) -> bool {
    trimmed(line).len() == 0
}

/// The entry of a JSONL line: its `content` string, or the line itself.
pub open spec fn jsonl_entry(line: Seq<char>) -> Seq<char> {
    match json_content_field(line) {
        Some(t) => t,
        None => line,
    }
}

/// The entries of a JSONL text: one per non-blank line.
pub open spec fn jsonl_entries(content: Seq<char>) -> Seq<Seq<char>> {
    text_lines(content).filter(|l: Seq<char>| !is_blank(l)).map_values(
        |l: Seq<char>| jsonl_entry(l),
    )
}

/// The entry of a transcript turn: `speaker: text`.
pub open spec fn turn_entry(t: TurnView) -> Seq<char> {
    t.speaker + seq![':', ' '] + t.text
}

/// The entries of a transcript: one per turn.
pub open spec fn transcript_entries(content: Seq<char>) -> Seq<Seq<char>> {
    transcript_of(content).turns.map_values(|t: TurnView| turn_entry(t))
}

/// The entries an extractor finds in a file's text (none in a file that
/// could not be read).
pub open spec fn extracted_entries(kind: ExtractorType, content: Option<Seq<char>>) -> Seq<
    Seq<char>,
> {
    match content {
        None => seq![],
        Some(c) => match kind {
            ExtractorType::Txt => text_lines(c),
            ExtractorType::Jsonl => jsonl_entries(c),
            ExtractorType::Transcript => transcript_entries(c),
        },
    }
}

/// The name of an extractor's kind of source, as the manifest records it.
pub open spec fn source_name(kind: ExtractorType) -> Seq<char> {
    match kind {
        ExtractorType::Txt => seq!['t', 'x', 't'],
        ExtractorType::Jsonl => seq!['j', 's', 'o', 'n', 'l'],
        ExtractorType::Transcript => seq!['t', 'r', 'a', 'n', 's', 'c', 'r', 'i', 'p', 't'],
    }
}

/// The manifest entry of a file: its name, its title (the transcript's
/// meeting, else the file name) and its date (the transcript's date, else
/// the date in the file name).
pub open spec fn extracted_record(
    kind: ExtractorType,
    filename: Seq<char>,
    content: Option<Seq<char>>,
) -> EntryView {
    let (title, date) = match (kind, content) {
        (ExtractorType::Transcript, Some(c)) => (
            match transcript_of(c).meeting {
                Some(m) => m,
                None => filename,
            },
            match transcript_of(c).meeting_date {
                Some(d) => d,
                None => file_name_date(filename),
            },
        ),
        _ => (filename, file_name_date(filename)),
    };
    EntryView { filename, title, date, source: source_name(kind) }
}

/// What extraction needs of a file's text: a transcript's date must be cuttable.
pub open spec fn extractable(kind: ExtractorType, content: Option<Seq<char>>) -> bool {
    match (kind, content) {
        (ExtractorType::Transcript, Some(c)) => transcript_date_cuttable(c),
        _ => true,
    }
}

/// The view of an optional string argument.
pub open spec fn opt_str(o: Option<&str>) -> Option<Seq<char>> {
    match o {
        Some(s) => Some(s@),
        None => None,
    }
}

// ----- Extractors -----

fn source_string(kind: ExtractorType) -> (res: String)
    ensures
        res@ == source_name(kind),
{
    let cs = match kind {
        ExtractorType::Txt => vec!['t', 'x', 't'],
        ExtractorType::Jsonl => vec!['j', 's', 'o', 'n', 'l'],
        ExtractorType::Transcript => vec!['t', 'r', 'a', 'n', 's', 'c', 'r', 'i', 'p', 't'],
    };
    assert(cs@ =~= source_name(kind));
    string_from_chars(cs.as_slice())
}

fn copy_string(s: &str) -> (res: String)
    ensures
        res@ == s@,
{
    let cs = chars_of(s);
    string_from_chars(cs.as_slice())
}

fn plain_record(kind: ExtractorType, filename: &str) -> (res: FileEntry)
    ensures
        res@ == (EntryView {
            filename: filename@,
            title: filename@,
            date: file_name_date(filename@),
            source: source_name(kind),
        }),
{
    FileEntry {
        filename: copy_string(filename),
        title: copy_string(filename),
        date: date_from_file_name(filename),
        source: source_string(kind),
    }
}

/// Plain text files: each line is one entry.
pub fn extract_txt(filename: &str, content: Option<&str>) -> (res: (FileEntry, Vec<String>))
    ensures
        res.0@ == extracted_record(ExtractorType::Txt, filename@, opt_str(content)),
        string_views(res.1@) == extracted_entries(ExtractorType::Txt, opt_str(content)),
{
    let entry = plain_record(ExtractorType::Txt, filename);
    let c = match content {
        Some(c) => c,
        None => {
            let none: Vec<String> = Vec::new();
            assert(string_views(none@) =~= Seq::<Seq<char>>::empty());
            return (entry, none);
        },
    };
    let cs = chars_of(c);
    let lines = split_lines(&cs);
    let mut out: Vec<String> = Vec::new();
    let mut i: usize = 0;
    while i < lines.len()
        invariant
            i <= lines@.len(),
            lines@.len() == text_lines(c@).len(),
            forall|k: int| 0 <= k < lines@.len() ==> #[trigger] lines@[k]@ == text_lines(c@)[k],
            string_views(out@) == text_lines(c@).take(i as int),
        decreases lines@.len() - i,
    {
        let s = string_from_chars(lines[i].as_slice());
        let ghost before = out@;
        out.push(s);
        proof {
            assert(string_views(out@) =~= string_views(before).push(lines@[i as int]@));
            assert(text_lines(c@).take(i + 1) =~= text_lines(c@).take(i as int).push(
                text_lines(c@)[i as int],
            ));
        }
        i = i + 1;
    }
    assert(text_lines(c@).take(i as int) =~= text_lines(c@));
    (entry, out)
}

/// JSONL files: each non-blank line is one entry, its `content` string if it
/// has one, else the whole line.
pub fn extract_jsonl(filename: &str, content: Option<&str>) -> (res: (FileEntry, Vec<String>))
    ensures
        res.0@ == extracted_record(ExtractorType::Jsonl, filename@, opt_str(content)),
        string_views(res.1@) == extracted_entries(ExtractorType::Jsonl, opt_str(content)),
{
    let entry = plain_record(ExtractorType::Jsonl, filename);
    let c = match content {
        Some(c) => c,
        None => {
            let none: Vec<String> = Vec::new();
            assert(string_views(none@) =~= Seq::<Seq<char>>::empty());
            return (entry, none);
        },
    };
    let cs = chars_of(c);
    let lines = split_lines(&cs);
    let ghost lv = text_lines(c@);
    let mut out: Vec<String> = Vec::new();
    let mut i: usize = 0;
    while i < lines.len()
        invariant
            i <= lines@.len(),
            lv == text_lines(c@),
            lines@.len() == lv.len(),
            forall|k: int| 0 <= k < lines@.len() ==> #[trigger] lines@[k]@ == lv[k],
            string_views(out@) == lv.take(i as int).filter(|l: Seq<char>| !is_blank(l)).map_values(
                |l: Seq<char>| jsonl_entry(l),
            ),
        decreases lines@.len() - i,
    {
        let line = &lines[i];
        let (a, b) = trim_bounds(line, 0, line.len());
        proof {
            assert(line@.subrange(0, line@.len() as int) =~= line@);
            assert(lv.take(i + 1) =~= lv.take(i as int).push(lv[i as int]));
            lemma_filter_push(lv.take(i as int), lv[i as int], |l: Seq<char>| !is_blank(l));
        }
        if a < b {
            let text = string_from_chars(line.as_slice());
            let entry_text = match json_content(text.as_str()) {
                Some(t) => t,
                None => text,
            };
            let ghost before = out@;
            out.push(entry_text);
            proof {
                let f = lv.take(i as int).filter(|l: Seq<char>| !is_blank(l));
                assert(f.push(lv[i as int]).map_values(|l: Seq<char>| jsonl_entry(l))
                    =~= f.map_values(|l: Seq<char>| jsonl_entry(l)).push(jsonl_entry(lv[i as int])));
                assert(string_views(out@) =~= string_views(before).push(entry_text@));
            }
        }
        i = i + 1;
    }
    assert(lv.take(i as int) =~= lv);
    (entry, out)
}

/// The entry of a turn: `speaker: text`.
fn turn_text(t: &Turn) -> (res: String)
    ensures
        res@ == turn_entry(t@),
{
    let mut cs = chars_of(t.speaker.as_str());
    cs.push(':');
    cs.push(' ');
    let rest = chars_of(t.text.as_str());
    let mut k: usize = 0;
    let ghost mid = cs@;
    while k < rest.len()
        invariant
            k <= rest@.len(),
            cs@ == mid + rest@.take(k as int),
        decreases rest@.len() - k,
    {
        cs.push(rest[k]);
        k = k + 1;
        assert(cs@ =~= mid + rest@.take(k as int));
    }
    assert(rest@.take(k as int) =~= rest@);
    assert(cs@ =~= turn_entry(t@));
    string_from_chars(cs.as_slice())
}

/// Tactiq transcript files: one entry per speaker turn; the meeting name and
/// date of the header, when present, become the title and date.
pub fn extract_transcript(filename: &str, content: Option<&str>) -> (res: (FileEntry, Vec<String>))
    requires
        extractable(ExtractorType::Transcript, opt_str(content)),
    ensures
        res.0@ == extracted_record(ExtractorType::Transcript, filename@, opt_str(content)),
        string_views(res.1@) == extracted_entries(ExtractorType::Transcript, opt_str(content)),
{
    let c = match content {
        Some(c) => c,
        None => {
            let entry = plain_record(ExtractorType::Transcript, filename);
            let none: Vec<String> = Vec::new();
            assert(string_views(none@) =~= Seq::<Seq<char>>::empty());
            return (entry, none);
        },
    };
    let parsed = parse_transcript(c);
    let date = match parsed.meeting_date {
        Some(d) => d,
        None => date_from_file_name(filename),
    };
    let title = match parsed.meeting {
        Some(m) => m,
        None => copy_string(filename),
    };
    let turns = parsed.turns;
    let ghost tv = transcript_of(c@).turns;
    assert(turns@.map_values(|t: Turn| t@) == tv);
    let mut out: Vec<String> = Vec::new();
    let mut i: usize = 0;
    while i < turns.len()
        invariant
            i <= turns@.len(),
            tv == transcript_of(c@).turns,
            turns@.map_values(|t: Turn| t@) == tv,
            string_views(out@) == tv.take(i as int).map_values(|t: TurnView| turn_entry(t)),
        decreases turns@.len() - i,
    {
        let e = turn_text(&turns[i]);
        let ghost before = out@;
        out.push(e);
        proof {
            assert(tv[i as int] == turns@[i as int]@);
            assert(string_views(out@) =~= string_views(before).push(e@));
            assert(tv.take(i + 1).map_values(|t: TurnView| turn_entry(t)) =~= tv.take(
                i as int,
            ).map_values(|t: TurnView| turn_entry(t)).push(turn_entry(tv[i as int])));
        }
        i = i + 1;
    }
    assert(tv.take(i as int) =~= tv);
    let entry = FileEntry {
        filename: copy_string(filename),
        title,
        date,
        source: source_string(ExtractorType::Transcript),
    };
    (entry, out)
}

/// Runs the extractor of the given kind on a source file.
pub fn extract(kind: ExtractorType, file: &SourceFile) -> (res: (FileEntry, Vec<String>))
    requires
        extractable(kind, opt_view(file.content)),
    ensures
        res.0@ == extracted_record(kind, file.filename@, opt_view(file.content)),
        string_views(res.1@) == extracted_entries(kind, opt_view(file.content)),
{
    let content: Option<&str> = match &file.content {
        Some(c) => Some(c.as_str()),
        None => None,
    };
    assert(opt_str(content) == opt_view(file.content));
    match kind {
        ExtractorType::Jsonl => extract_jsonl(file.filename.as_str(), content),
        ExtractorType::Txt => extract_txt(file.filename.as_str(), content),
        ExtractorType::Transcript => extract_transcript(file.filename.as_str(), content),
    }
}

} // verus!
