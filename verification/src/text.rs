//! Character-level text handling: Unicode character classes, line splitting
//! and whitespace trimming over character sequences.
use vstd::prelude::*;

verus! {

/// Whether `c` has the Unicode White_Space property, as `char::is_whitespace`
/// decides it: tab to carriage return, space, next line, no-break space,
/// ogham space mark, the spaces from en quad to hair space, line and
/// paragraph separators, narrow no-break space, medium mathematical space
/// and ideographic space.
pub open spec fn unicode_white_space(c: char) -> bool {
    let v = c as u32;
    ||| 0x09 <= v <= 0x0D
    ||| v == 0x20 || v == 0x85 || v == 0xA0 || v == 0x1680
    ||| 0x2000 <= v <= 0x200A
    ||| v == 0x2028 || v == 0x2029 || v == 0x202F || v == 0x205F || v == 0x3000
}

/// Whether `c`, a character beyond ASCII, is alphabetic or numeric in
/// Unicode, as `char::is_alphanumeric` decides it.
pub uninterp spec fn unicode_alphanumeric(c: char) -> bool;

/// Whether `c` is alphabetic or numeric (`char::is_alphanumeric`): among
/// ASCII characters the letters and the digits, beyond ASCII as Unicode
/// decides it.
pub open spec fn is_alphanumeric(c: char) -> bool {
    if (c as u32) < 0x80 {
        ('a' <= c <= 'z') || ('A' <= c <= 'Z') || ('0' <= c <= '9')
    } else {
        unicode_alphanumeric(c)
    }
}

/// The lowercase form of a string that is not all ASCII, as
/// `str::to_lowercase` computes it.
pub uninterp spec fn unicode_lowercase(s: Seq<char>) -> Seq<char>;

/// Every character is ASCII.
pub open spec fn is_ascii_text(s: Seq<char>) -> bool {
    forall|i: int| 0 <= i < s.len() ==> (#[trigger] s[i] as u32) < 0x80
}

/// The lowercase form of an ASCII character: `A` to `Z` become `a` to `z`.
pub open spec fn ascii_lower(c: char) -> char {
    if 'A' <= c <= 'Z' {
        ((c as u32) + 32) as char
    } else {
        c
    }
}

/// The lowercase form of a string (`str::to_lowercase`): an ASCII string
/// has its letters lowercased one by one, any other is as Unicode decides.
pub open spec fn lowercase(s: Seq<char>) -> Seq<char> {
    if is_ascii_text(s) {
        s.map_values(|c: char| ascii_lower(c))
    } else {
        unicode_lowercase(s)
    }
}

/// Calls `char::is_whitespace`; its result is the Unicode White_Space
/// property of `c`, the 25 characters `unicode_white_space` lists.
#[verifier::external_body]
pub(crate) fn char_is_whitespace(c: char) -> (res: bool)
    ensures
        res == unicode_white_space(c),
{
    c.is_whitespace()
}

/// Calls `char::is_alphanumeric`; its result is whether `c` is alphabetic or
/// numeric, which for an ASCII character means an ASCII letter or digit.
#[verifier::external_body]
pub(crate) fn char_is_alphanumeric(c: char) -> (res: bool)
    ensures
        (c as u32) < 0x80 ==> res == (('a' <= c <= 'z') || ('A' <= c <= 'Z') || ('0' <= c <= '9')),
        (c as u32) >= 0x80 ==> res == unicode_alphanumeric(c),
{
    c.is_alphanumeric()
}

/// Calls `str::to_lowercase`; the result is the lowercase form of the whole
/// string, which for an ASCII string is each letter in its lowercase form.
#[verifier::external_body]
pub(crate) fn str_to_lowercase(s: &str) -> (res: String)
    ensures
        is_ascii_text(s@) ==> res@ == s@.map_values(|c: char| ascii_lower(c)),
        !is_ascii_text(s@) ==> res@ == unicode_lowercase(s@),
{
    s.to_lowercase()
}

/// Collects characters into a `String` (std's `FromIterator<&char> for String`);
/// the string holds exactly those characters, in order.
#[verifier::external_body]
pub(crate) fn string_from_chars(chars: &[char]) -> (res: String)
    ensures
        res@ == chars@,
{
    chars.iter().collect()
}

/// The characters of a string slice, in order.
pub fn chars_of(s: &str) -> (res: Vec<char>)
    ensures
        res@ == s@,
{
    broadcast use vstd::string::group_string_axioms;

    let mut out: Vec<char> = Vec::new();
    for c in it: s.chars()
        invariant
            out@ == it.seq().take(it.index() as int),
    {
        out.push(c);
    }
    assert(out@ =~= s@);
    out
}

// ----- UTF-8 lengths -----

/// The number of bytes in the UTF-8 form of a character sequence (what `str::len` counts).
pub open spec fn utf8_len(s: Seq<char>) -> nat {
    vstd::utf8::encode_utf8(s).len()
}

/// The number of bytes in the UTF-8 form of one character.
pub open spec fn char_width(c: char) -> nat {
    vstd::utf8::encode_scalar(c as u32).len()
}

pub proof fn lemma_encode_utf8_concat(a: Seq<char>, b: Seq<char>)
    ensures
        vstd::utf8::encode_utf8(a + b) == vstd::utf8::encode_utf8(a) + vstd::utf8::encode_utf8(b),
    decreases a.len(),
{
    if a.len() == 0 {
        assert(a + b =~= b);
        assert(vstd::utf8::encode_utf8(a) =~= Seq::<u8>::empty());
        assert(vstd::utf8::encode_utf8(a) + vstd::utf8::encode_utf8(b) =~= vstd::utf8::encode_utf8(b));
    } else {
        assert((a + b).drop_first() =~= a.drop_first() + b);
        assert((a + b)[0] == a[0]);
        lemma_encode_utf8_concat(a.drop_first(), b);
        assert(vstd::utf8::encode_utf8(a + b) =~= vstd::utf8::encode_utf8(a) + vstd::utf8::encode_utf8(b));
    }
}

pub proof fn lemma_utf8_len_push(s: Seq<char>, c: char)
    ensures
        utf8_len(s.push(c)) == utf8_len(s) + char_width(c),
{
    lemma_encode_utf8_concat(s, seq![c]);
    assert(s.push(c) =~= s + seq![c]);
    assert(seq![c].drop_first() =~= Seq::<char>::empty());
    assert(vstd::utf8::encode_utf8(seq![c]) =~= vstd::utf8::encode_scalar(c as u32)
        + vstd::utf8::encode_utf8(Seq::<char>::empty()));
}

pub proof fn lemma_utf8_len_prefix(s: Seq<char>, i: int)
    requires
        0 <= i <= s.len(),
    ensures
        utf8_len(s.take(i)) <= utf8_len(s),
{
    lemma_encode_utf8_concat(s.take(i), s.skip(i));
    assert(s.take(i) + s.skip(i) =~= s);
}

/// The number of UTF-8 bytes of one character (as `char::len_utf8` gives it).
pub fn char_utf8_width(c: char) -> (w: usize)
    ensures
        w == char_width(c),
        1 <= w <= 4,
{
    broadcast use vstd::utf8::char_is_scalar;

    let v = c as u32;
    if v < 0x80 {
        1
    } else if v < 0x800 {
        2
    } else if v < 0x10000 {
        3
    } else {
        4
    }
}

/// The UTF-8 length of `cs`, exact when it is at most `limit`; above `limit` otherwise.
pub(crate) fn utf8_len_bounded(cs: &[char], limit: usize) -> (r: usize)
    requires
        limit <= usize::MAX - 4,
    ensures
        utf8_len(cs@) <= limit ==> r == utf8_len(cs@),
        utf8_len(cs@) > limit ==> r > limit,
{
    let mut total: usize = 0;
    let mut i: usize = 0;
    while i < cs.len()
        invariant
            i <= cs@.len(),
            limit <= usize::MAX - 4,
            total == utf8_len(cs@.take(i as int)),
            total <= limit,
        decreases cs@.len() - i,
    {
        let w = char_utf8_width(cs[i]);
        proof {
            lemma_utf8_len_push(cs@.take(i as int), cs@[i as int]);
            assert(cs@.take(i as int).push(cs@[i as int]) =~= cs@.take(i + 1));
        }
        total = total + w;
        i = i + 1;
        if total > limit {
            proof {
                lemma_utf8_len_prefix(cs@, i as int);
            }
            return total;
        }
    }
    assert(cs@.take(i as int) =~= cs@);
    total
}

/// Appending to a sequence appends to its filtered form exactly when the new element passes.
pub proof fn lemma_filter_push<A>(s: Seq<A>, x: A, p: spec_fn(A) -> bool)
    ensures
        s.push(x).filter(p) == (if p(x) {
            s.filter(p).push(x)
        } else {
            s.filter(p)
        }),
{
    reveal_with_fuel(Seq::filter, 1);
    assert(s.push(x).drop_last() =~= s);
}

// ----- Lines -----

/// Removes one trailing carriage return, if there is one.
pub open spec fn strip_cr(line: Seq<char>) -> Seq<char> {
    if line.len() > 0 && line.last() == '\r' {
        line.drop_last()
    } else {
        line
    }
}

/// The position of the first `'\n'` at or after `from`, or `s.len()` when there is none.
pub open spec fn newline_pos(s: Seq<char>, from: int) -> int
    decreases s.len() - from,
{
    if from < 0 || from >= s.len() {
        s.len() as int
    } else if s[from] == '\n' {
        from
    } else {
        newline_pos(s, from + 1)
    }
}

/// The lines of `s` from position `start` on.
pub open spec fn lines_from(s: Seq<char>, start: int) -> Seq<Seq<char>>
    decreases s.len() - start,
{
    if start < 0 || start >= s.len() {
        seq![]
    } else {
        let i = newline_pos(s, start);
        proof {
            lemma_newline_pos_bounds(s, start);
        }
        if i >= s.len() {
            seq![s.subrange(start, s.len() as int)]
        } else {
            seq![strip_cr(s.subrange(start, i))] + lines_from(s, i + 1)
        }
    }
}

/// The lines of a text as `str::lines` yields them: split at each `'\n'`, one
/// `'\r'` before that `'\n'` removed, no line after a final `'\n'`, and no
/// line at all in an empty text.
pub open spec fn text_lines(s: Seq<char>) -> Seq<Seq<char>> {
    lines_from(s, 0)
}

pub proof fn lemma_newline_pos_bounds(s: Seq<char>, from: int)
    requires
        0 <= from <= s.len(),
    ensures
        from <= newline_pos(s, from) <= s.len(),
        newline_pos(s, from) < s.len() ==> s[newline_pos(s, from)] == '\n',
        forall|k: int| from <= k < newline_pos(s, from) ==> s[k] != '\n',
    decreases s.len() - from,
{
    if from < s.len() && s[from] != '\n' {
        lemma_newline_pos_bounds(s, from + 1);
    }
}

/// Copies `s[lo..hi]` into a new vector.
pub fn copy_range(s: &Vec<char>, lo: usize, hi: usize) -> (res: Vec<char>)
    requires
        lo <= hi <= s.len(),
    ensures
        res@ == s@.subrange(lo as int, hi as int),
{
    let mut out: Vec<char> = Vec::new();
    let mut k = lo;
    while k < hi
        invariant
            lo <= k <= hi <= s.len(),
            out@ == s@.subrange(lo as int, k as int),
        decreases hi - k,
    {
        out.push(s[k]);
        k = k + 1;
        assert(out@ =~= s@.subrange(lo as int, k as int));
    }
    out
}

/// Splits a character sequence into lines, as `str::lines` does.
pub fn split_lines(s: &Vec<char>) -> (res: Vec<Vec<char>>)
    ensures
        res@.len() == text_lines(s@).len(),
        forall|i: int| 0 <= i < res@.len() ==> #[trigger] res@[i]@ == text_lines(s@)[i],
{
    let mut out: Vec<Vec<char>> = Vec::new();
    let ghost mut done: Seq<Seq<char>> = seq![];
    let mut start: usize = 0;
    let n = s.len();
    while start < n
        invariant
            n == s@.len(),
            start <= n,
            out@.len() == done.len(),
            forall|i: int| 0 <= i < out@.len() ==> #[trigger] out@[i]@ == done[i],
            done + lines_from(s@, start as int) == text_lines(s@),
        decreases n - start,
    {
        let mut j = start;
        while j < n && s[j] != '\n'
            invariant
                n == s@.len(),
                start <= j <= n,
                start < n,
                newline_pos(s@, start as int) == newline_pos(s@, j as int),
            decreases n - j,
        {
            j = j + 1;
        }
        let ghost rest = lines_from(s@, start as int);
        if j >= n {
            let line = copy_range(s, start, n);
            proof {
                assert(rest == seq![s@.subrange(start as int, n as int)]);
                done = done.push(line@);
                assert(lines_from(s@, n as int) == Seq::<Seq<char>>::empty());
            }
            out.push(line);
            start = n;
            proof {
                assert(done + lines_from(s@, start as int) =~= text_lines(s@));
            }
        } else {
            let mut end = j;
            if end > start && s[end - 1] == '\r' {
                end = end - 1;
            }
            let line = copy_range(s, start, end);
            proof {
                assert(line@ == strip_cr(s@.subrange(start as int, j as int))) by {
                    let sub = s@.subrange(start as int, j as int);
                    if sub.len() > 0 && sub.last() == '\r' {
                        assert(sub.drop_last() =~= line@);
                    } else {
                        assert(sub =~= line@);
                    }
                }
                assert(rest == seq![line@] + lines_from(s@, j + 1));
                assert(done + rest =~= done.push(line@) + lines_from(s@, j + 1));
                done = done.push(line@);
            }
            out.push(line);
            start = j + 1;
        }
    }
    proof {
        assert(lines_from(s@, start as int) == Seq::<Seq<char>>::empty());
        assert(done =~= text_lines(s@));
    }
    out
}

// ----- Trimming -----

/// The first position at or after `i` that does not hold whitespace (or `s.len()`).
pub open spec fn skip_white_fwd(s: Seq<char>, i: int) -> int
    decreases s.len() - i,
{
    if i < 0 || i >= s.len() || !unicode_white_space(s[i]) {
        i
    } else {
        skip_white_fwd(s, i + 1)
    }
}

/// The end of `s[lo..j]` once its trailing whitespace is removed.
pub open spec fn skip_white_back(s: Seq<char>, lo: int, j: int) -> int
    decreases j - lo,
{
    if j <= lo || j > s.len() || !unicode_white_space(s[j - 1]) {
        j
    } else {
        skip_white_back(s, lo, j - 1)
    }
}

/// `s` with its leading and trailing Unicode whitespace removed, as `str::trim` returns it.
pub open spec fn trimmed(s: Seq<char>) -> Seq<char> {
    let a = skip_white_fwd(s, 0);
    s.subrange(a, skip_white_back(s, a, s.len() as int))
}

pub proof fn lemma_skip_white_fwd(s: Seq<char>, i: int)
    requires
        0 <= i <= s.len(),
    ensures
        i <= skip_white_fwd(s, i) <= s.len(),
    decreases s.len() - i,
{
    if i < s.len() && unicode_white_space(s[i]) {
        lemma_skip_white_fwd(s, i + 1);
    }
}

pub proof fn lemma_skip_white_back(s: Seq<char>, lo: int, j: int)
    requires
        0 <= lo <= j <= s.len(),
    ensures
        lo <= skip_white_back(s, lo, j) <= j,
    decreases j - lo,
{
    if j > lo && unicode_white_space(s[j - 1]) {
        lemma_skip_white_back(s, lo, j - 1);
    }
}

/// Skipping whitespace forward stops at the end or at a character that is
/// not whitespace.
proof fn lemma_skip_white_fwd_stops(s: Seq<char>, i: int)
    requires
        0 <= i <= s.len(),
    ensures
        skip_white_fwd(s, i) == s.len() || !unicode_white_space(s[skip_white_fwd(s, i)]),
    decreases s.len() - i,
{
    if i < s.len() && unicode_white_space(s[i]) {
        lemma_skip_white_fwd_stops(s, i + 1);
    }
}

/// Skipping whitespace backward stops at `lo` or after a character that is
/// not whitespace.
proof fn lemma_skip_white_back_stops(s: Seq<char>, lo: int, j: int)
    requires
        0 <= lo <= j <= s.len(),
    ensures
        skip_white_back(s, lo, j) == lo || !unicode_white_space(s[skip_white_back(s, lo, j) - 1]),
    decreases j - lo,
{
    if j > lo && unicode_white_space(s[j - 1]) {
        lemma_skip_white_back_stops(s, lo, j - 1);
    }
}

/// Skipping whitespace backward from past a character that is not
/// whitespace stops after it.
proof fn lemma_skip_white_back_past(s: Seq<char>, lo: int, j: int)
    requires
        0 <= lo < j <= s.len(),
        !unicode_white_space(s[lo]),
    ensures
        skip_white_back(s, lo, j) > lo,
    decreases j - lo,
{
    if j - 1 > lo && unicode_white_space(s[j - 1]) {
        lemma_skip_white_back_past(s, lo, j - 1);
    }
}

/// A trimmed sequence does not start with whitespace, and a sequence that
/// does not start with whitespace does not trim to nothing.
pub proof fn lemma_trimmed_ends(s: Seq<char>)
    ensures
        trimmed(s).len() > 0 ==> !unicode_white_space(trimmed(s)[0]),
        s.len() > 0 && !unicode_white_space(s[0]) ==> trimmed(s).len() > 0,
{
    lemma_skip_white_fwd(s, 0);
    lemma_skip_white_fwd_stops(s, 0);
    let a = skip_white_fwd(s, 0);
    lemma_skip_white_back(s, a, s.len() as int);
    if trimmed(s).len() > 0 {
        assert(trimmed(s)[0] == s[a]);
    }
    if s.len() > 0 && !unicode_white_space(s[0]) {
        assert(a == 0);
        lemma_skip_white_back_past(s, 0, s.len() as int);
    }
}

proof fn lemma_skip_white_fwd_before(s: Seq<char>, i: int, j: int)
    requires
        0 <= i <= j < s.len(),
        !unicode_white_space(s[j]),
    ensures
        skip_white_fwd(s, i) <= j,
    decreases j - i,
{
    if i < j && unicode_white_space(s[i]) {
        lemma_skip_white_fwd_before(s, i + 1, j);
    }
}

proof fn lemma_skip_white_fwd_all(s: Seq<char>, i: int)
    requires
        0 <= i <= s.len(),
        forall|k: int| 0 <= k < s.len() ==> unicode_white_space(#[trigger] s[k]),
    ensures
        skip_white_fwd(s, i) == s.len(),
    decreases s.len() - i,
{
    if i < s.len() {
        lemma_skip_white_fwd_all(s, i + 1);
    }
}

/// A sequence trims to nothing exactly when all of it is whitespace.
pub proof fn lemma_trimmed_empty(s: Seq<char>)
    ensures
        trimmed(s).len() == 0 <==> forall|k: int| 0 <= k < s.len() ==> unicode_white_space(#[trigger] s[k]),
{
    lemma_skip_white_fwd(s, 0);
    let a = skip_white_fwd(s, 0);
    lemma_skip_white_back(s, a, s.len() as int);
    if forall|k: int| 0 <= k < s.len() ==> unicode_white_space(#[trigger] s[k]) {
        lemma_skip_white_fwd_all(s, 0);
    } else {
        let j = choose|j: int| 0 <= j < s.len() && !unicode_white_space(#[trigger] s[j]);
        lemma_skip_white_fwd_before(s, 0, j);
        lemma_skip_white_fwd_stops(s, 0);
        lemma_skip_white_back_past(s, a, s.len() as int);
    }
}

/// Trimming twice is trimming once.
pub proof fn lemma_trimmed_idempotent(s: Seq<char>)
    ensures
        trimmed(trimmed(s)) == trimmed(s),
{
    let a = skip_white_fwd(s, 0);
    lemma_skip_white_fwd(s, 0);
    lemma_skip_white_fwd_stops(s, 0);
    let e = skip_white_back(s, a, s.len() as int);
    lemma_skip_white_back(s, a, s.len() as int);
    lemma_skip_white_back_stops(s, a, s.len() as int);
    let t = trimmed(s);
    assert(t == s.subrange(a, e));
    if t.len() == 0 {
        assert(trimmed(t) =~= t);
    } else {
        assert(t[0] == s[a]);
        assert(skip_white_fwd(t, 0) == 0);
        assert(t[t.len() - 1] == s[e - 1]);
        assert(skip_white_back(t, 0, t.len() as int) == t.len());
        assert(trimmed(t) =~= t);
    }
}

/// Trimming a window `s[lo..hi]`: the positions `(a, b)` such that
/// `s[a..b]` is the window with its surrounding whitespace removed.
pub fn trim_bounds(s: &Vec<char>, lo: usize, hi: usize) -> (res: (usize, usize))
    requires
        lo <= hi <= s.len(),
    ensures
        lo <= res.0 <= res.1 <= hi,
        s@.subrange(res.0 as int, res.1 as int) == trimmed(s@.subrange(lo as int, hi as int)),
{
    let ghost w = s@.subrange(lo as int, hi as int);
    let mut a = lo;
    while a < hi && char_is_whitespace(s[a])
        invariant
            lo <= a <= hi <= s.len(),
            w == s@.subrange(lo as int, hi as int),
            skip_white_fwd(w, (a - lo) as int) == skip_white_fwd(w, 0),
        decreases hi - a,
    {
        a = a + 1;
    }
    proof {
        lemma_skip_white_fwd(w, 0);
        assert(skip_white_fwd(w, (a - lo) as int) == (a - lo) as int);
    }
    let mut b = hi;
    while b > a && char_is_whitespace(s[b - 1])
        invariant
            lo <= a <= b <= hi <= s.len(),
            w == s@.subrange(lo as int, hi as int),
            skip_white_fwd(w, 0) == (a - lo) as int,
            skip_white_back(w, (a - lo) as int, (b - lo) as int) == skip_white_back(
                w,
                (a - lo) as int,
                w.len() as int,
            ),
        decreases b - a,
    {
        b = b - 1;
    }
    proof {
        assert(skip_white_back(w, (a - lo) as int, (b - lo) as int) == (b - lo) as int);
        assert(s@.subrange(a as int, b as int) =~= w.subrange((a - lo) as int, (b - lo) as int));
    }
    (a, b)
}

} // verus!
