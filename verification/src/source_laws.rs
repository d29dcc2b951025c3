//! Properties of what the library reads out of source files and of how it
//! orders hits: entries line by line, dates in file names, transcript
//! headers.
use vstd::prelude::*;
use vstd::utf8::encode_utf8;
use crate::index::Hit;
use crate::order::StrictOrder;
use crate::text::{
    text_lines, lines_from, newline_pos, strip_cr, lemma_newline_pos_bounds, is_ascii_text, char_width,
    unicode_white_space, lemma_trimmed_empty,
};
use crate::extract::{
    ExtractorType, extracted_entries, extracted_record, is_blank, jsonl_entry, json_content_field,
};
use crate::date::{file_name_date, first_date_from, date_shaped};
use crate::transcript::{
    transcript_of, header_end, meeting_value, date_value, last_meeting, first_date, date_cut,
    is_rule_line, rule_from, chars_within_bytes,
};
use crate::laws::{date_chars, lemma_ascii_utf8_len};

verus! {

// ----- The order of hits -----

/// Hits are ordered by file number, the larger first, and within a file by
/// entry number, the smaller first.
pub proof fn lemma_hit_order(a: Hit, b: Hit)
    ensures
        Hit::precedes(a, b) <==> (a.file_idx > b.file_idx || (a.file_idx == b.file_idx
            && a.entry_idx < b.entry_idx)),
{
}

// ----- Entries of text and JSONL files -----

/// The entries of a text file are its lines, one entry per line, in order.
pub proof fn lemma_txt_entries_are_lines(c: Seq<char>)
    ensures
        extracted_entries(ExtractorType::Txt, Some(c)).len() == text_lines(c).len(),
        forall|k: int|
            0 <= k < text_lines(c).len() ==> #[trigger] extracted_entries(ExtractorType::Txt, Some(c))[k]
                == text_lines(c)[k],
{
}

/// The entries of a JSONL file follow its non-blank lines one to one, in
/// order: entry `k` comes from the `k`-th non-blank line, whatever its text.
pub proof fn lemma_jsonl_entries_follow_lines(c: Seq<char>)
    ensures
        ({
            let nonblank = text_lines(c).filter(|l: Seq<char>| !is_blank(l));
            &&& extracted_entries(ExtractorType::Jsonl, Some(c)).len() == nonblank.len()
            &&& forall|k: int|
                0 <= k < nonblank.len() ==> #[trigger] extracted_entries(ExtractorType::Jsonl, Some(c))[k]
                    == jsonl_entry(nonblank[k])
        }),
{
}

/// The entry of a JSONL line is the string in its `content` field when it
/// has one, and the line itself otherwise.
pub proof fn lemma_jsonl_entry(line: Seq<char>)
    ensures
        jsonl_entry(line) == (if json_content_field(line) is Some {
            json_content_field(line)->Some_0
        } else {
            line
        }),
{
}

/// The blank lines a JSONL file skips are those of whitespace only.
pub proof fn lemma_blank_lines(line: Seq<char>)
    ensures
        is_blank(line) <==> forall|k: int| 0 <= k < line.len() ==> unicode_white_space(#[trigger] line[k]),
{
    lemma_trimmed_empty(line);
}

/// A file that could not be read gives no entries, whatever the extractor.
pub proof fn lemma_unreadable_no_entries(kind: ExtractorType)
    ensures
        extracted_entries(kind, None).len() == 0,
{
}

// ----- Dates in file names -----

/// The ten characters a date-shaped window of bytes spells.
pub open spec fn window_chars(b: Seq<u8>, i: int) -> Seq<char> {
    Seq::new(10, |k: int| b[i + k] as char)
}

proof fn lemma_window_date(b: Seq<u8>, i: int)
    requires
        0 <= i,
        i + 10 <= b.len(),
    ensures
        date_shaped(b.skip(i)) <==> date_chars(window_chars(b, i)),
{
    let w = window_chars(b, i);
    assert forall|k: int| 0 <= k < 10 implies (w[k] as u32) == b[i + k] as u32 && b.skip(i)[k] == b[i + k] by {
    }
}

proof fn lemma_first_date_least(b: Seq<u8>, i: int)
    requires
        0 <= i,
    ensures
        match first_date_from(b, i) {
            Some(j) => i <= j && j + 10 <= b.len() && date_shaped(b.skip(j)) && forall|m: int|
                i <= m < j ==> !date_shaped(#[trigger] b.skip(m)),
            None => forall|m: int| i <= m && m + 10 <= b.len() ==> !date_shaped(#[trigger] b.skip(m)),
        },
    decreases b.len() - i,
{
    if i + 10 <= b.len() && !date_shaped(b.skip(i)) {
        lemma_first_date_least(b, i + 1);
    }
}

/// The date of a file name is the first `YYYY-MM-DD` in its UTF-8 bytes:
/// when a date starts at some position, the result is the date at the
/// earliest position that starts one, which is no later; when none does,
/// the result is `?`.
pub proof fn lemma_file_name_date_is_first(name: Seq<char>)
    ensures
        ({
            let b = encode_utf8(name);
            &&& (forall|i: int| 0 <= i && i + 10 <= b.len() ==> !date_chars(#[trigger] window_chars(b, i)))
                ==> file_name_date(name) == seq!['?']
            &&& forall|i: int|
                0 <= i && i + 10 <= b.len() && date_chars(#[trigger] window_chars(b, i)) ==> exists|j: int|
                    0 <= j <= i && date_chars(#[trigger] window_chars(b, j)) && file_name_date(name)
                        == window_chars(b, j) && forall|m: int|
                        0 <= m < j ==> !date_chars(#[trigger] window_chars(b, m))
        }),
{
    let b = encode_utf8(name);
    lemma_first_date_least(b, 0);
    assert forall|m: int| 0 <= m && m + 10 <= b.len() implies (date_shaped(b.skip(m)) <==> date_chars(
        #[trigger] window_chars(b, m),
    )) by {
        lemma_window_date(b, m);
    }
    match first_date_from(b, 0) {
        Some(j) => {
            assert(file_name_date(name) =~= window_chars(b, j));
            assert forall|i: int|
                0 <= i && i + 10 <= b.len() && date_chars(#[trigger] window_chars(b, i)) implies exists|
                j2: int,
            |
                0 <= j2 <= i && date_chars(#[trigger] window_chars(b, j2)) && file_name_date(name)
                    == window_chars(b, j2) && forall|m: int|
                    0 <= m < j2 ==> !date_chars(#[trigger] window_chars(b, m)) by {
                if i < j {
                    assert(!date_shaped(b.skip(i)));
                }
                assert(date_chars(window_chars(b, j)));
                assert forall|m: int| 0 <= m < j implies !date_chars(#[trigger] window_chars(b, m)) by {
                    assert(!date_shaped(b.skip(m)));
                }
            }
        },
        None => {
            assert forall|i: int| 0 <= i && i + 10 <= b.len() && date_chars(
                #[trigger] window_chars(b, i),
            ) implies false by {
                assert(!date_shaped(b.skip(i)));
            }
        },
    }
}

// ----- Transcript headers -----

proof fn lemma_last_meeting(ls: Seq<Seq<char>>)
    ensures
        (forall|k: int| 0 <= k < ls.len() ==> #[trigger] meeting_value(ls[k]) is None) ==> last_meeting(
            ls,
        ) is None,
        forall|k: int|
            0 <= k < ls.len() && #[trigger] meeting_value(ls[k]) is Some && (forall|m: int|
                k < m < ls.len() ==> meeting_value(#[trigger] ls[m]) is None) ==> last_meeting(ls)
                == meeting_value(ls[k]),
    decreases ls.len(),
{
    if ls.len() > 0 {
        let init = ls.drop_last();
        lemma_last_meeting(init);
        assert forall|k: int| 0 <= k < init.len() implies init[k] == ls[k] by {}
        assert(ls.last() == ls[ls.len() - 1]);
    }
}

proof fn lemma_first_date_line(ls: Seq<Seq<char>>)
    ensures
        (forall|k: int| 0 <= k < ls.len() ==> #[trigger] date_value(ls[k]) is None) ==> first_date(ls) is None,
        forall|k: int|
            0 <= k < ls.len() && #[trigger] date_value(ls[k]) is Some && (forall|m: int|
                0 <= m < k ==> date_value(#[trigger] ls[m]) is None) ==> first_date(ls) == date_value(ls[k]),
    decreases ls.len(),
{
    if ls.len() > 0 {
        let init = ls.drop_last();
        lemma_first_date_line(init);
        assert forall|k: int| 0 <= k < init.len() implies init[k] == ls[k] by {}
        assert(ls.last() == ls[ls.len() - 1]);
        assert forall|k: int|
            0 <= k < ls.len() && #[trigger] date_value(ls[k]) is Some && (forall|m: int|
                0 <= m < k ==> date_value(#[trigger] ls[m]) is None) implies first_date(ls) == date_value(
            ls[k],
        ) by {
            if k < init.len() {
                assert(date_value(init[k]) is Some);
            } else {
                assert forall|m: int| 0 <= m < init.len() implies date_value(#[trigger] init[m]) is None by {
                    assert(date_value(ls[m]) is None);
                }
            }
        }
    }
}

proof fn lemma_rule_from(lines: Seq<Seq<char>>, i: int)
    requires
        0 <= i,
    ensures
        rule_from(lines, i) == 0 || (i <= rule_from(lines, i) < lines.len() && is_rule_line(
            lines[rule_from(lines, i)],
        ) && forall|m: int| i <= m < rule_from(lines, i) ==> !is_rule_line(#[trigger] lines[m])),
        (forall|m: int| i <= m < lines.len() ==> !is_rule_line(#[trigger] lines[m])) ==> rule_from(lines, i)
            == 0,
        forall|r: int|
            i <= r < lines.len() && is_rule_line(#[trigger] lines[r]) && (forall|m: int|
                i <= m < r ==> !is_rule_line(#[trigger] lines[m])) ==> rule_from(lines, i) == r,
    decreases lines.len() - i,
{
    if i < lines.len() && !is_rule_line(lines[i]) {
        lemma_rule_from(lines, i + 1);
        assert forall|r: int|
            i <= r < lines.len() && is_rule_line(#[trigger] lines[r]) && (forall|m: int|
                i <= m < r ==> !is_rule_line(#[trigger] lines[m])) implies rule_from(lines, i) == r by {
            assert(r != i);
        }
    }
}

/// The header of a transcript ends at its first `===` line; without one
/// there is no header.
pub proof fn lemma_header_end(lines: Seq<Seq<char>>)
    ensures
        (forall|m: int| 0 <= m < lines.len() ==> !is_rule_line(#[trigger] lines[m])) ==> header_end(lines)
            == 0,
        forall|r: int|
            0 <= r < lines.len() && is_rule_line(#[trigger] lines[r]) && (forall|m: int|
                0 <= m < r ==> !is_rule_line(#[trigger] lines[m])) ==> header_end(lines) == r,
{
    lemma_rule_from(lines, 0);
}

/// The meeting of a transcript is the value of the last `Meeting:` line
/// of its header, and there is none without such a line.
pub proof fn lemma_transcript_meeting(text: Seq<char>)
    ensures
        ({
            let lines = text_lines(text);
            let h = header_end(lines);
            &&& (forall|k: int| 0 <= k < h ==> #[trigger] meeting_value(lines[k]) is None)
                ==> transcript_of(text).meeting is None
            &&& forall|k: int|
                0 <= k < h && #[trigger] meeting_value(lines[k]) is Some && (forall|m: int|
                    k < m < h ==> meeting_value(#[trigger] lines[m]) is None) ==> transcript_of(text).meeting
                    == meeting_value(lines[k])
        }),
{
    let lines = text_lines(text);
    let h = header_end(lines);
    lemma_rule_from(lines, 0);
    let hd = lines.take(h);
    lemma_last_meeting(hd);
    assert(h <= lines.len());
    if forall|k: int| 0 <= k < h ==> #[trigger] meeting_value(lines[k]) is None {
        assert forall|k: int| 0 <= k < hd.len() implies #[trigger] meeting_value(hd[k]) is None by {
            assert(hd[k] == lines[k]);
        }
    }
    assert forall|k: int|
        0 <= k < h && #[trigger] meeting_value(lines[k]) is Some && (forall|m: int|
            k < m < h ==> meeting_value(#[trigger] lines[m]) is None) implies transcript_of(text).meeting
        == meeting_value(lines[k]) by {
        assert(hd[k] == lines[k]);
        assert forall|m: int| k < m < hd.len() implies meeting_value(#[trigger] hd[m]) is None by {
            assert(hd[m] == lines[m]);
        }
    }
}

/// The date of a transcript is the value of the first `Date:` line of its
/// header, cut after ten bytes, and there is none without such a line.
pub proof fn lemma_transcript_date(text: Seq<char>)
    ensures
        ({
            let lines = text_lines(text);
            let h = header_end(lines);
            &&& (forall|k: int| 0 <= k < h ==> #[trigger] date_value(lines[k]) is None)
                ==> transcript_of(text).meeting_date is None
            &&& forall|k: int|
                0 <= k < h && #[trigger] date_value(lines[k]) is Some && (forall|m: int|
                    0 <= m < k ==> date_value(#[trigger] lines[m]) is None) ==> transcript_of(text).meeting_date
                    == Some(date_cut(date_value(lines[k])->Some_0))
        }),
{
    let lines = text_lines(text);
    let h = header_end(lines);
    lemma_rule_from(lines, 0);
    let hd = lines.take(h);
    lemma_first_date_line(hd);
    assert(h <= lines.len());
    if forall|k: int| 0 <= k < h ==> #[trigger] date_value(lines[k]) is None {
        assert forall|k: int| 0 <= k < hd.len() implies #[trigger] date_value(hd[k]) is None by {
            assert(hd[k] == lines[k]);
        }
    }
    assert forall|k: int|
        0 <= k < h && #[trigger] date_value(lines[k]) is Some && (forall|m: int|
            0 <= m < k ==> date_value(#[trigger] lines[m]) is None) implies transcript_of(text).meeting_date
        == Some(date_cut(date_value(lines[k])->Some_0)) by {
        assert(hd[k] == lines[k]);
        assert forall|m: int| 0 <= m < k implies date_value(#[trigger] hd[m]) is None by {
            assert(hd[m] == lines[m]);
        }
    }
}


// ----- Transcript entries and manifest records -----

/// The entries of a transcript follow its turns one to one: `speaker: text`.
pub proof fn lemma_transcript_entries_follow_turns(c: Seq<char>)
    ensures
        extracted_entries(ExtractorType::Transcript, Some(c)).len() == transcript_of(c).turns.len(),
        forall|k: int|
            0 <= k < transcript_of(c).turns.len() ==> #[trigger] extracted_entries(
                ExtractorType::Transcript,
                Some(c),
            )[k] == transcript_of(c).turns[k].speaker + seq![':', ' '] + transcript_of(c).turns[k].text,
{
}

/// A file's manifest record keeps its name. Its title is the file name and
/// its date the date in the file name, except for a readable transcript,
/// whose header meeting and date take their places when it has them.
pub proof fn lemma_file_record(kind: ExtractorType, filename: Seq<char>, content: Option<Seq<char>>)
    ensures
        extracted_record(kind, filename, content).filename == filename,
        (kind != ExtractorType::Transcript || content is None) ==> extracted_record(
            kind,
            filename,
            content,
        ).title == filename && extracted_record(kind, filename, content).date == file_name_date(
            filename,
        ),
        (kind == ExtractorType::Transcript && content is Some) ==> ({
            let t = transcript_of(content->Some_0);
            &&& extracted_record(kind, filename, content).title == (if t.meeting is Some {
                t.meeting->Some_0
            } else {
                filename
            })
            &&& extracted_record(kind, filename, content).date == (if t.meeting_date is Some {
                t.meeting_date->Some_0
            } else {
                file_name_date(filename)
            })
        }),
{
}

// ----- Lines -----

/// The number of newlines in `s` from position `i` on.
pub open spec fn newlines_from(s: Seq<char>, i: int) -> nat
    decreases s.len() - i,
{
    if i < 0 || i >= s.len() {
        0
    } else {
        (if s[i] == '\n' {
            1nat
        } else {
            0nat
        }) + newlines_from(s, i + 1)
    }
}

proof fn lemma_newlines_skip(s: Seq<char>, a: int, b: int)
    requires
        0 <= a <= b <= s.len(),
        forall|k: int| a <= k < b ==> s[k] != '\n',
    ensures
        newlines_from(s, a) == newlines_from(s, b),
    decreases b - a,
{
    if a < b {
        lemma_newlines_skip(s, a + 1, b);
    }
}

proof fn lemma_lines_from(s: Seq<char>, start: int)
    requires
        0 <= start <= s.len(),
    ensures
        lines_from(s, start).len() == newlines_from(s, start) + (if start < s.len() && s.last() != '\n' {
            1int
        } else {
            0int
        }),
        forall|k: int, j: int|
            0 <= k < lines_from(s, start).len() && 0 <= j < lines_from(s, start)[k].len() ==> #[trigger] lines_from(
                s,
                start,
            )[k][j] != '\n',
    decreases s.len() - start,
{
    if start < s.len() {
        lemma_newline_pos_bounds(s, start);
        let i = newline_pos(s, start);
        lemma_newlines_skip(s, start, i);
        let ls = lines_from(s, start);
        if i >= s.len() {
            assert(s.last() == s[s.len() - 1]);
            assert forall|k: int, j: int| 0 <= k < ls.len() && 0 <= j < ls[k].len() implies #[trigger] ls[k][j]
                != '\n' by {
                assert(ls[k][j] == s[start + j]);
            }
        } else {
            lemma_lines_from(s, i + 1);
            if i + 1 == s.len() {
                assert(s.last() == s[i]);
            }
            assert forall|k: int, j: int| 0 <= k < ls.len() && 0 <= j < ls[k].len() implies #[trigger] ls[k][j]
                != '\n' by {
                if k == 0 {
                    let seg = s.subrange(start, i);
                    assert(ls[0] == strip_cr(seg));
                    assert(strip_cr(seg)[j] == seg[j]);
                } else {
                    assert(ls[k] == lines_from(s, i + 1)[k - 1]);
                }
            }
        }
    }
}

/// Splitting a text into lines cuts it at every newline: no line holds a
/// newline, and there is one line per newline, plus one for the text after
/// the last newline when the text does not end with one.
pub proof fn lemma_text_lines_count(s: Seq<char>)
    ensures
        text_lines(s).len() == newlines_from(s, 0) + (if s.len() > 0 && s.last() != '\n' {
            1int
        } else {
            0int
        }),
        forall|k: int, j: int|
            0 <= k < text_lines(s).len() && 0 <= j < text_lines(s)[k].len() ==> #[trigger] text_lines(s)[k][j]
                != '\n',
{
    lemma_lines_from(s, 0);
}

// ----- The date of a transcript header -----

proof fn lemma_ascii_chars_within(v: Seq<char>, n: int)
    requires
        is_ascii_text(v),
        n >= 0,
    ensures
        chars_within_bytes(v, n) == (if v.len() < n {
            v.len() as int
        } else {
            n
        }),
    decreases v.len(),
{
    if v.len() > 0 {
        assert(char_width(v[0]) == 1);
        if n > 0 {
            assert forall|i: int| 0 <= i < v.drop_first().len() implies (#[trigger] v.drop_first()[i] as u32)
                < 0x80 by {
                assert(v.drop_first()[i] == v[i + 1]);
            }
            lemma_ascii_chars_within(v.drop_first(), n - 1);
        }
    }
}

/// An ASCII date value is cut to its first ten characters, and a shorter
/// one is kept whole.
pub proof fn lemma_date_cut_ascii(v: Seq<char>)
    requires
        is_ascii_text(v),
    ensures
        date_cut(v) == (if v.len() >= 10 {
            v.take(10)
        } else {
            v
        }),
{
    lemma_ascii_utf8_len(v);
    lemma_ascii_chars_within(v, 10);
}
} // verus!
