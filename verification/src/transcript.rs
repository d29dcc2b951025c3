//! Parsing meeting transcripts: a header of `Meeting:` and `Date:` lines up
//! to a `===` line, then speaker turns, each opened by a line
//! `Name (HH:MM:SS)` and followed by the lines of what was said.
use vstd::prelude::*;
use crate::text::{
    text_lines, trimmed, utf8_len, char_width, split_lines, chars_of, trim_bounds, copy_range,
    string_from_chars, utf8_len_bounded, char_utf8_width,
};

verus! {

// ----- Small sequence helpers -----

/// `s` starts with `p`.
pub open spec fn starts_with(s: Seq<char>, p: Seq<char>) -> bool {
    p.len() <= s.len() && s.take(p.len() as int) == p
}

/// Whether `s[lo..hi]` starts with `p`.
fn range_starts_with(s: &Vec<char>, lo: usize, hi: usize, p: &[char]) -> (res: bool)
    requires
        lo <= hi <= s.len(),
    ensures
        res == starts_with(s@.subrange(lo as int, hi as int), p@),
{
    if p.len() > hi - lo {
        return false;
    }
    let ghost w = s@.subrange(lo as int, hi as int);
    let mut i: usize = 0;
    while i < p.len()
        invariant
            lo <= hi <= s.len(),
            w == s@.subrange(lo as int, hi as int),
            p@.len() <= w.len(),
            i <= p@.len(),
            w.take(i as int) == p@.take(i as int),
        decreases p@.len() - i,
    {
        if s[lo + i] != p[i] {
            assert(w.take(p@.len() as int)[i as int] != p@[i as int]);
            return false;
        }
        i = i + 1;
        assert(w.take(i as int) =~= p@.take(i as int));
    }
    assert(p@.take(i as int) =~= p@);
    true
}

/// The lines joined with `'\n'` between them (as `[&str]::join("\n")` does).
pub open spec fn join_lines(ls: Seq<Seq<char>>) -> Seq<char>
    decreases ls.len(),
{
    if ls.len() == 0 {
        seq![]
    } else if ls.len() == 1 {
        ls[0]
    } else {
        join_lines(ls.drop_last()) + seq!['\n'] + ls.last()
    }
}

/// The number of leading characters of `v` whose UTF-8 form fits in `n` bytes.
pub open spec fn chars_within_bytes(v: Seq<char>, n: int) -> int
    decreases v.len(),
{
    if v.len() == 0 || char_width(v[0]) > n {
        0
    } else {
        1 + chars_within_bytes(v.drop_first(), n - char_width(v[0]))
    }
}

/// The first ten bytes of `v` as characters, when `v` is that long
/// (`&v[..10]`), else `v` itself.
pub open spec fn date_cut(v: Seq<char>) -> Seq<char> {
    if utf8_len(v) >= 10 {
        v.take(chars_within_bytes(v, 10))
    } else {
        v
    }
}

/// Cutting `v` after its tenth byte falls between characters.
pub open spec fn date_cut_on_boundary(v: Seq<char>) -> bool {
    utf8_len(v) >= 10 ==> utf8_len(v.take(chars_within_bytes(v, 10))) == 10
}

// ----- Header -----

/// The value of a `Meeting:` line: the trimmed rest of the trimmed line.
pub open spec fn meeting_value(line: Seq<char>) -> Option<Seq<char>> {
    let l = trimmed(line);
    if starts_with(l, seq!['M', 'e', 'e', 't', 'i', 'n', 'g', ':']) {
        Some(trimmed(l.skip(8)))
    } else {
        None
    }
}

/// The value of a `Date:` line: the trimmed rest of the trimmed line.
pub open spec fn date_value(line: Seq<char>) -> Option<Seq<char>> {
    let l = trimmed(line);
    if starts_with(l, seq!['D', 'a', 't', 'e', ':']) {
        Some(trimmed(l.skip(5)))
    } else {
        None
    }
}

/// The value of the last `Meeting:` line.
pub open spec fn last_meeting(lines: Seq<Seq<char>>) -> Option<Seq<char>>
    decreases lines.len(),
{
    if lines.len() == 0 {
        None
    } else {
        match meeting_value(lines.last()) {
            Some(v) => Some(v),
            None => last_meeting(lines.drop_last()),
        }
    }
}

/// The value of the first `Date:` line.
pub open spec fn first_date(lines: Seq<Seq<char>>) -> Option<Seq<char>>
    decreases lines.len(),
{
    if lines.len() == 0 {
        None
    } else {
        match first_date(lines.drop_last()) {
            Some(v) => Some(v),
            None => date_value(lines.last()),
        }
    }
}

/// A line that ends the header: trimmed, it starts with `===`.
pub open spec fn is_rule_line(line: Seq<char>) -> bool {
    starts_with(trimmed(line), seq!['=', '=', '='])
}

/// The position of the first rule line at or after `i`, or 0 when there is none.
pub open spec fn rule_from(lines: Seq<Seq<char>>, i: int) -> int
    decreases lines.len() - i,
{
    if i < 0 || i >= lines.len() {
        0
    } else if is_rule_line(lines[i]) {
        i
    } else {
        rule_from(lines, i + 1)
    }
}

/// Where the header ends: the first rule line, or 0 (no header) without one.
pub open spec fn header_end(lines: Seq<Seq<char>>) -> int {
    rule_from(lines, 0)
}

// ----- Turns -----

/// A speaker turn: who spoke, when, and what was said.
pub struct TurnView {
    pub speaker: Seq<char>,
    pub timestamp: Seq<char>,
    pub text: Seq<char>,
}

/// The last position `p <= i` at which `" ("` starts in `cap`.
pub open spec fn space_paren_at_or_below(cap: Seq<char>, i: int) -> Option<int>
    decreases i + 1,
{
    if i < 0 {
        None
    } else if i + 1 < cap.len() && cap[i] == ' ' && cap[i + 1] == '(' {
        Some(i)
    } else {
        space_paren_at_or_below(cap, i - 1)
    }
}

/// A line that opens a turn: trimmed, it ends with `)`, and the part between
/// its last `" ("` and that `)`, trimmed, is an 8-byte timestamp with a `:`.
/// Gives the trimmed name before `" ("` and the timestamp.
pub open spec fn speaker_line(line: Seq<char>) -> Option<(Seq<char>, Seq<char>)> {
    let t = trimmed(line);
    if t.len() > 0 && t.last() == ')' {
        let cap = t.drop_last();
        match space_paren_at_or_below(cap, cap.len() - 2) {
            Some(idx) => {
                let name = trimmed(cap.take(idx));
                let ts = trimmed(cap.skip(idx + 2));
                if utf8_len(ts) == 8 && ts.contains(':') {
                    Some((name, ts))
                } else {
                    None
                }
            },
            None => None,
        }
    } else {
        None
    }
}

/// The state of the body parser: the open turn (its speaker, empty when no
/// turn is open, its timestamp and its lines) and the finished turns.
pub struct BodyState {
    pub speaker: Seq<char>,
    pub timestamp: Seq<char>,
    pub lines: Seq<Seq<char>>,
    pub turns: Seq<TurnView>,
}

/// The turns, with the open one closed if there is one.
pub open spec fn close_turn(st: BodyState) -> Seq<TurnView> {
    if st.speaker.len() > 0 {
        st.turns.push(
            TurnView {
                speaker: st.speaker,
                timestamp: st.timestamp,
                text: trimmed(join_lines(st.lines)),
            },
        )
    } else {
        st.turns
    }
}

/// One body line: a speaker line closes the open turn and opens a new one;
/// any other line is part of the open turn (and dropped when none is open).
pub open spec fn body_step(st: BodyState, line: Seq<char>) -> BodyState {
    match speaker_line(line) {
        Some((name, ts)) => BodyState {
            speaker: name,
            timestamp: ts,
            lines: seq![],
            turns: close_turn(st),
        },
        None => if st.speaker.len() > 0 {
            BodyState { lines: st.lines.push(line), ..st }
        } else {
            st
        },
    }
}

pub open spec fn body_start() -> BodyState {
    BodyState { speaker: seq![], timestamp: seq![], lines: seq![], turns: seq![] }
}

/// The body parser after all of `lines`.
pub open spec fn body_fold(lines: Seq<Seq<char>>) -> BodyState
    decreases lines.len(),
{
    if lines.len() == 0 {
        body_start()
    } else {
        body_step(body_fold(lines.drop_last()), lines.last())
    }
}

/// A parsed transcript.
pub struct TranscriptView {
    pub meeting: Option<Seq<char>>,
    pub meeting_date: Option<Seq<char>>,
    pub turns: Seq<TurnView>,
}

/// What a transcript text holds: the last meeting name and the first date
/// (cut to ten bytes) of the header, and the turns of everything from the
/// header's end on.
pub open spec fn transcript_of(text: Seq<char>) -> TranscriptView {
    let lines = text_lines(text);
    let h = header_end(lines);
    TranscriptView {
        meeting: last_meeting(lines.take(h)),
        meeting_date: match first_date(lines.take(h)) {
            Some(v) => Some(date_cut(v)),
            None => None,
        },
        turns: close_turn(body_fold(lines.skip(h))),
    }
}

/// The transcript's date line, if any, can be cut after ten bytes (slicing
/// a string inside a character panics).
pub open spec fn transcript_date_cuttable(text: Seq<char>) -> bool {
    let lines = text_lines(text);
    match first_date(lines.take(header_end(lines))) {
        Some(v) => date_cut_on_boundary(v),
        None => true,
    }
}


// ----- Parsed values -----

/// A speaker turn of a transcript.
#[derive(Debug)]
pub struct Turn {
    pub speaker: String,
    pub timestamp: String,
    pub text: String,
}

impl View for Turn {
    type V = TurnView;

    open spec fn view(&self) -> TurnView {
        TurnView { speaker: self.speaker@, timestamp: self.timestamp@, text: self.text@ }
    }
}

/// A parsed transcript: meeting name and date from its header, and its turns.
pub struct TranscriptData {
    pub meeting: Option<String>,
    pub meeting_date: Option<String>,
    pub turns: Vec<Turn>,
}

/// The view of an optional string.
pub open spec fn opt_view(o: Option<String>) -> Option<Seq<char>> {
    match o {
        Some(s) => Some(s@),
        None => None,
    }
}

impl View for TranscriptData {
    type V = TranscriptView;

    open spec fn view(&self) -> TranscriptView {
        TranscriptView {
            meeting: opt_view(self.meeting),
            meeting_date: opt_view(self.meeting_date),
            turns: self.turns@.map_values(|t: Turn| t@),
        }
    }
}

// ----- Executable pieces -----

/// The view of an optional character vector.
pub open spec fn opt_chars(o: Option<Vec<char>>) -> Option<Seq<char>> {
    match o {
        Some(v) => Some(v@),
        None => None,
    }
}

/// The characters of `v` within its first ten bytes when it has ten or more, else `v`.
fn cut_date(v: Vec<char>) -> (res: Vec<char>)
    ensures
        res@ == date_cut(v@),
{
    let total = utf8_len_bounded(v.as_slice(), 10);
    if total < 10 {
        return v;
    }
    let mut k: usize = 0;
    let mut used: usize = 0;
    assert(v@.skip(0) =~= v@);
    while k < v.len() && used + char_utf8_width(v[k]) <= 10
        invariant
            k <= v@.len(),
            used <= 10,
            chars_within_bytes(v@, 10) == k + chars_within_bytes(v@.skip(k as int), 10 - used),
        decreases v@.len() - k,
    {
        let w = char_utf8_width(v[k]);
        proof {
            assert(v@.skip(k as int)[0] == v@[k as int]);
            assert(v@.skip(k as int).drop_first() =~= v@.skip(k + 1));
        }
        used = used + w;
        k = k + 1;
    }
    proof {
        if k < v@.len() {
            assert(v@.skip(k as int)[0] == v@[k as int]);
        }
    }
    copy_range(&v, 0, k)
}

/// The characters of the lines joined with `'\n'`.
fn join_with_newlines(ls: &Vec<Vec<char>>) -> (res: Vec<char>)
    ensures
        res@ == join_lines(ls@.map_values(|l: Vec<char>| l@)),
{
    let ghost lv = ls@.map_values(|l: Vec<char>| l@);
    let mut out: Vec<char> = Vec::new();
    let mut i: usize = 0;
    while i < ls.len()
        invariant
            i <= ls@.len(),
            lv == ls@.map_values(|l: Vec<char>| l@),
            out@ == join_lines(lv.take(i as int)),
        decreases ls@.len() - i,
    {
        let ghost before = out@;
        if i > 0 {
            out.push('\n');
        }
        let line = &ls[i];
        let mut j: usize = 0;
        let ghost mid = out@;
        while j < line.len()
            invariant
                j <= line@.len(),
                out@ == mid + line@.take(j as int),
            decreases line@.len() - j,
        {
            out.push(line[j]);
            j = j + 1;
            assert(out@ =~= mid + line@.take(j as int));
        }
        proof {
            assert(line@.take(j as int) =~= line@);
            let t = lv.take(i + 1);
            assert(t.drop_last() =~= lv.take(i as int));
            assert(t.last() == line@);
            if i == 0 {
                assert(before =~= Seq::<char>::empty());
                assert(out@ =~= line@);
            } else {
                assert(out@ =~= before + seq!['\n'] + line@);
            }
        }
        i = i + 1;
    }
    assert(lv.take(i as int) =~= lv);
    out
}

/// Whether `s[lo..hi]` holds a `:`.
fn range_has_colon(s: &Vec<char>, lo: usize, hi: usize) -> (res: bool)
    requires
        lo <= hi <= s.len(),
    ensures
        res == s@.subrange(lo as int, hi as int).contains(':'),
{
    let ghost w = s@.subrange(lo as int, hi as int);
    let mut k = lo;
    while k < hi
        invariant
            lo <= k <= hi <= s@.len(),
            w == s@.subrange(lo as int, hi as int),
            forall|m: int| lo <= m < k ==> s@[m] != ':',
        decreases hi - k,
    {
        if s[k] == ':' {
            assert(w[k - lo] == ':');
            return true;
        }
        k = k + 1;
    }
    assert(!w.contains(':')) by {
        if w.contains(':') {
            let m = choose|m: int| 0 <= m < w.len() && w[m] == ':';
            assert(s@[lo + m] == ':');
        }
    }
    false
}

/// The name and timestamp around the `" ("` at `idx` of `line[a..e]`, when
/// the timestamp is 8 bytes long and holds a `:`.
fn speaker_parts(line: &Vec<char>, a: usize, e: usize, idx: usize) -> (res: Option<(Vec<char>, Vec<char>)>)
    requires
        a <= e <= line@.len(),
        idx + 2 <= e - a,
    ensures
        ({
            let cap = line@.subrange(a as int, e as int);
            let ts = trimmed(cap.skip(idx + 2));
            match res {
                Some((n, t)) => n@ == trimmed(cap.take(idx as int)) && t@ == ts && utf8_len(ts)
                    == 8 && ts.contains(':'),
                None => !(utf8_len(ts) == 8 && ts.contains(':')),
            }
        }),
{
    let ghost cap = line@.subrange(a as int, e as int);
    let (na, nb) = trim_bounds(line, a, a + idx);
    let (ta, tb) = trim_bounds(line, a + idx + 2, e);
    proof {
        assert(cap.take(idx as int) =~= line@.subrange(a as int, a + idx));
        assert(cap.skip(idx + 2) =~= line@.subrange(a + idx + 2, e as int));
    }
    let blen = utf8_len_bounded(&line.as_slice()[ta..tb], 8);
    if blen != 8 {
        return None;
    }
    if !range_has_colon(line, ta, tb) {
        return None;
    }
    let name = copy_range(line, na, nb);
    let stamp = copy_range(line, ta, tb);
    Some((name, stamp))
}

/// Recognizes a speaker line, giving its name and timestamp.
fn speaker_of(line: &Vec<char>) -> (res: Option<(Vec<char>, Vec<char>)>)
    ensures
        match res {
            Some((n, t)) => speaker_line(line@) == Some((n@, t@)),
            None => speaker_line(line@) is None,
        },
{
    let (a, b) = trim_bounds(line, 0, line.len());
    proof {
        assert(line@.subrange(0, line@.len() as int) =~= line@);
    }
    let ghost t = trimmed(line@);
    if !(b > a && line[b - 1] == ')') {
        return None;
    }
    let e = b - 1;
    let ghost cap = t.drop_last();
    assert(cap =~= line@.subrange(a as int, e as int));
    let cap_len = e - a;
    if cap_len < 2 {
        return None;
    }
    let mut q: usize = cap_len - 1;
    while q > 0
        invariant
            a <= e <= line@.len(),
            cap_len == e - a,
            cap_len >= 2,
            cap == line@.subrange(a as int, e as int),
            cap == trimmed(line@).drop_last(),
            trimmed(line@).len() > 0 && trimmed(line@).last() == ')',
            q <= cap_len - 1,
            space_paren_at_or_below(cap, cap_len - 2) == space_paren_at_or_below(cap, q - 1),
        decreases q,
    {
        let i = q - 1;
        if line[a + i] == ' ' && line[a + i + 1] == '(' {
            proof {
                assert(space_paren_at_or_below(cap, q - 1) == Some(i as int));
            }
            return speaker_parts(line, a, e, i);
        }
        q = q - 1;
    }
    None
}

/// The views of a vector of lines.
pub open spec fn line_views(ls: Seq<Vec<char>>) -> Seq<Seq<char>> {
    ls.map_values(|l: Vec<char>| l@)
}

/// The views of a vector of turns.
pub open spec fn turn_views(ts: Seq<Turn>) -> Seq<TurnView> {
    ts.map_values(|t: Turn| t@)
}

/// The body parser's state.
struct BodyParser {
    speaker: Vec<char>,
    timestamp: Vec<char>,
    lines: Vec<Vec<char>>,
    turns: Vec<Turn>,
}

impl BodyParser {
    spec fn state(&self) -> BodyState {
        BodyState {
            speaker: self.speaker@,
            timestamp: self.timestamp@,
            lines: line_views(self.lines@),
            turns: turn_views(self.turns@),
        }
    }

    /// Closes the open turn, if there is one, leaving the parser's turns as
    /// `close_turn` gives them.
    fn close(&mut self)
        ensures
            turn_views(final(self).turns@) == close_turn(old(self).state()),
            final(self).speaker@ == old(self).speaker@,
            final(self).timestamp@ == old(self).timestamp@,
            line_views(final(self).lines@) == line_views(old(self).lines@),
    {
        if self.speaker.len() > 0 {
            let joined = join_with_newlines(&self.lines);
            let (x, y) = trim_bounds(&joined, 0, joined.len());
            proof {
                assert(joined@.subrange(0, joined@.len() as int) =~= joined@);
            }
            let text = copy_range(&joined, x, y);
            let turn = Turn {
                speaker: string_from_chars(self.speaker.as_slice()),
                timestamp: string_from_chars(self.timestamp.as_slice()),
                text: string_from_chars(text.as_slice()),
            };
            let ghost before = self.turns@;
            self.turns.push(turn);
            proof {
                assert(turn_views(self.turns@) =~= turn_views(before).push(turn@));
            }
        }
    }

    /// Feeds one body line to the parser.
    fn feed(&mut self, line: &Vec<char>)
        ensures
            final(self).state() == body_step(old(self).state(), line@),
    {
        match speaker_of(line) {
            Some((name, stamp)) => {
                self.close();
                self.speaker = name;
                self.timestamp = stamp;
                self.lines = Vec::new();
                proof {
                    assert(line_views(self.lines@) =~= Seq::<Seq<char>>::empty());
                }
            },
            None => {
                if self.speaker.len() > 0 {
                    let copy = copy_range(line, 0, line.len());
                    proof {
                        assert(line@.subrange(0, line@.len() as int) =~= line@);
                    }
                    let ghost before = self.lines@;
                    self.lines.push(copy);
                    proof {
                        assert(line_views(self.lines@) =~= line_views(before).push(line@));
                    }
                }
            },
        }
    }
}

/// Whether the trimmed `line` starts with the pattern.
fn trimmed_starts_with(line: &Vec<char>, p: &[char]) -> (res: (bool, usize, usize))
    ensures
        res.1 <= res.2 <= line@.len(),
        line@.subrange(res.1 as int, res.2 as int) == trimmed(line@),
        res.0 == starts_with(trimmed(line@), p@),
{
    let (a, b) = trim_bounds(line, 0, line.len());
    proof {
        assert(line@.subrange(0, line@.len() as int) =~= line@);
    }
    (range_starts_with(line, a, b, p), a, b)
}

/// The value after a header keyword of `n` characters, when the trimmed line starts with it.
fn header_value(line: &Vec<char>, p: &[char]) -> (res: Option<Vec<char>>)
    ensures
        match res {
            Some(v) => starts_with(trimmed(line@), p@) && v@ == trimmed(trimmed(line@).skip(
                p@.len() as int,
            )),
            None => !starts_with(trimmed(line@), p@),
        },
{
    let (ok, a, b) = trimmed_starts_with(line, p);
    if !ok {
        return None;
    }
    let (c, d) = trim_bounds(line, a + p.len(), b);
    proof {
        assert(trimmed(line@).skip(p@.len() as int) =~= line@.subrange(
            a + p@.len(),
            b as int,
        ));
    }
    Some(copy_range(line, c, d))
}

/// The position of the first line that, trimmed, starts with `===`, or 0.
fn find_header_end(lines: &Vec<Vec<char>>) -> (res: usize)
    ensures
        res == header_end(line_views(lines@)),
        res == 0 || res < lines@.len(),
{
    let ghost lv = line_views(lines@);
    let rule = vec!['=', '=', '='];
    assert(rule@ =~= seq!['=', '=', '=']);
    let n = lines.len();
    let mut i: usize = 0;
    while i < n
        invariant
            n == lv.len(),
            lines@.len() == n,
            line_views(lines@) == lv,
            rule@ == seq!['=', '=', '='],
            i <= n,
            rule_from(lv, 0) == rule_from(lv, i as int),
        decreases n - i,
    {
        assert(lines@[i as int]@ == lv[i as int]);
        let (is_rule, _, _) = trimmed_starts_with(&lines[i], rule.as_slice());
        if is_rule {
            return i;
        }
        i = i + 1;
    }
    0
}

/// A `String` holding the characters of an optional vector.
fn opt_string(o: Option<Vec<char>>) -> (res: Option<String>)
    ensures
        opt_view(res) == opt_chars(o),
{
    match o {
        Some(v) => Some(string_from_chars(v.as_slice())),
        None => None,
    }
}

/// Once a prefix of the lines has a `Date:` value, longer prefixes have the same one.
proof fn lemma_first_date_stays(lines: Seq<Seq<char>>, i: int, m: int)
    requires
        0 <= i <= m <= lines.len(),
        first_date(lines.take(i)) is Some,
    ensures
        first_date(lines.take(m)) == first_date(lines.take(i)),
    decreases m - i,
{
    if m > i {
        lemma_first_date_stays(lines, i, m - 1);
        assert(lines.take(m).drop_last() =~= lines.take(m - 1));
    }
}

/// Whether cutting `v` after its tenth byte, when it has ten, falls between characters.
fn date_cut_fits(v: Vec<char>) -> (r: bool)
    ensures
        r == date_cut_on_boundary(v@),
{
    let total = utf8_len_bounded(v.as_slice(), 10);
    if total < 10 {
        return true;
    }
    let cut = cut_date(v);
    let n = utf8_len_bounded(cut.as_slice(), 10);
    n == 10
}

/// Whether `parse_transcript` accepts the text: the first `Date:` value of
/// its header, when it has ten bytes or more, has a character boundary after
/// its tenth byte.
pub fn can_parse_transcript(text: &str) -> (r: bool)
    ensures
        r == transcript_date_cuttable(text@),
{
    let cs = chars_of(text);
    let lines = split_lines(&cs);
    let ghost lv = text_lines(text@);
    assert(line_views(lines@) =~= lv);
    let h = find_header_end(&lines);
    let date_kw = vec!['D', 'a', 't', 'e', ':'];
    assert(date_kw@ =~= seq!['D', 'a', 't', 'e', ':']);
    let mut i: usize = 0;
    while i < h
        invariant
            lv == text_lines(text@),
            lines@.len() == lv.len(),
            line_views(lines@) == lv,
            h == header_end(lv),
            h <= lv.len(),
            i <= h,
            date_kw@ == seq!['D', 'a', 't', 'e', ':'],
            first_date(lv.take(i as int)) is None,
        decreases h - i,
    {
        let line = &lines[i];
        assert(line@ == lv[i as int]);
        proof {
            assert(lv.take(i + 1).drop_last() =~= lv.take(i as int));
            assert(lv.take(i + 1).last() == lv[i as int]);
        }
        match header_value(line, date_kw.as_slice()) {
            Some(v) => {
                proof {
                    assert(first_date(lv.take(i + 1)) == Some(v@));
                    lemma_first_date_stays(lv, i + 1, h as int);
                }
                return date_cut_fits(v);
            },
            None => {},
        }
        i = i + 1;
    }
    true
}


/// Parses a transcript text.
pub fn parse_transcript(text: &str) -> (res: TranscriptData)
    requires
        transcript_date_cuttable(text@),
    ensures
        res@ == transcript_of(text@),
{
    let cs = chars_of(text);
    let lines = split_lines(&cs);
    let ghost lv = text_lines(text@);
    assert(line_views(lines@) =~= lv);
    let n = lines.len();
    let h = find_header_end(&lines);
    let meeting_kw = vec!['M', 'e', 'e', 't', 'i', 'n', 'g', ':'];
    let date_kw = vec!['D', 'a', 't', 'e', ':'];
    assert(meeting_kw@ =~= seq!['M', 'e', 'e', 't', 'i', 'n', 'g', ':']);
    assert(date_kw@ =~= seq!['D', 'a', 't', 'e', ':']);

    // The header: the last `Meeting:` value and the first `Date:` value.
    let mut meeting: Option<Vec<char>> = None;
    let mut date: Option<Vec<char>> = None;
    let mut i: usize = 0;
    while i < h
        invariant
            n == lv.len(),
            lines@.len() == n,
            line_views(lines@) == lv,
            h <= n,
            i <= h,
            meeting_kw@ == seq!['M', 'e', 'e', 't', 'i', 'n', 'g', ':'],
            date_kw@ == seq!['D', 'a', 't', 'e', ':'],
            opt_chars(meeting) == last_meeting(lv.take(i as int)),
            opt_chars(date) == (match first_date(lv.take(i as int)) {
                Some(v) => Some(date_cut(v)),
                None => None,
            }),
        decreases h - i,
    {
        let line = &lines[i];
        assert(line@ == lv[i as int]);
        proof {
            assert(lv.take(i + 1).drop_last() =~= lv.take(i as int));
            assert(lv.take(i + 1).last() == lv[i as int]);
        }
        match header_value(line, meeting_kw.as_slice()) {
            Some(v) => {
                meeting = Some(v);
            },
            None => {},
        }
        if date.is_none() {
            match header_value(line, date_kw.as_slice()) {
                Some(v) => {
                    date = Some(cut_date(v));
                },
                None => {},
            }
        }
        i = i + 1;
    }

    // The body: every line from the header's end on.
    let mut parser = BodyParser {
        speaker: Vec::new(),
        timestamp: Vec::new(),
        lines: Vec::new(),
        turns: Vec::new(),
    };
    proof {
        assert(parser.state().speaker =~= Seq::<char>::empty());
        assert(parser.state().timestamp =~= Seq::<char>::empty());
        assert(parser.state().lines =~= Seq::<Seq<char>>::empty());
        assert(parser.state().turns =~= Seq::<TurnView>::empty());
    }
    let ghost body = lv.skip(h as int);
    let mut j: usize = h;
    while j < n
        invariant
            n == lv.len(),
            lines@.len() == n,
            line_views(lines@) == lv,
            h <= j <= n,
            body == lv.skip(h as int),
            parser.state() == body_fold(body.take(j - h)),
        decreases n - j,
    {
        proof {
            assert(body.take(j - h + 1).drop_last() =~= body.take(j - h));
            assert(body.take(j - h + 1).last() == lv[j as int]);
        }
        assert(lines@[j as int]@ == lv[j as int]);
        parser.feed(&lines[j]);
        j = j + 1;
    }
    proof {
        assert(body.take(j - h) =~= body);
        assert(lv.take(h as int) =~= lv.take(h as int));
    }
    parser.close();
    TranscriptData {
        meeting: opt_string(meeting),
        meeting_date: opt_string(date),
        turns: parser.turns,
    }
}
} // verus!
