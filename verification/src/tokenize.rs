//! Splitting text into lowercase word tokens.
use vstd::prelude::*;
use crate::text::{
    is_alphanumeric, lowercase, char_is_alphanumeric, str_to_lowercase,
    string_from_chars, chars_of, utf8_len_bounded,
};

verus! {

/// Characters that belong to words: Unicode letters and digits, `_` and `-`.
pub open spec fn is_word_char(c: char) -> bool {
    is_alphanumeric(c) || c == '_' || c == '-'
}

/// The first position at or after `from` that holds a separator (or `s.len()`).
pub open spec fn sep_pos(s: Seq<char>, from: int) -> int
    decreases s.len() - from,
{
    if from < 0 || from >= s.len() {
        s.len() as int
    } else if !is_word_char(s[from]) {
        from
    } else {
        sep_pos(s, from + 1)
    }
}

pub proof fn lemma_sep_pos_bounds(s: Seq<char>, from: int)
    requires
        0 <= from <= s.len(),
    ensures
        from <= sep_pos(s, from) <= s.len(),
    decreases s.len() - from,
{
    if from < s.len() && is_word_char(s[from]) {
        lemma_sep_pos_bounds(s, from + 1);
    }
}

/// The pieces of `s` from `start` on, cut at every separator; consecutive
/// separators give empty pieces, as `str::split` gives them.
pub open spec fn pieces_from(s: Seq<char>, start: int) -> Seq<Seq<char>>
    decreases s.len() + 1 - start,
{
    if start < 0 || start > s.len() {
        seq![]
    } else {
        let i = sep_pos(s, start);
        proof {
            lemma_sep_pos_bounds(s, start);
        }
        if i >= s.len() {
            seq![s.subrange(start, s.len() as int)]
        } else {
            seq![s.subrange(start, i)] + pieces_from(s, i + 1)
        }
    }
}

/// The pieces of a text between separators.
pub open spec fn split_pieces(s: Seq<char>) -> Seq<Seq<char>> {
    pieces_from(s, 0)
}

/// A lowercased piece is kept when its UTF-8 form is 2 to 100 bytes long.
pub open spec fn keeps_token(t: Seq<char>) -> bool {
    2 <= vstd::utf8::encode_utf8(t).len() <= 100
}

/// The tokens of a text: its pieces, each lowercased, of which those of
/// 2 to 100 bytes are kept, in order.
pub open spec fn tokens(s: Seq<char>) -> Seq<Seq<char>> {
    split_pieces(s).map_values(|p: Seq<char>| lowercase(p)).filter(
        |t: Seq<char>| keeps_token(t),
    )
}

/// The views of a vector of strings.
pub open spec fn string_views(v: Seq<String>) -> Seq<Seq<char>> {
    v.map_values(|t: String| t@)
}

proof fn lemma_filter_push(s: Seq<Seq<char>>, x: Seq<char>)
    ensures
        s.push(x).filter(|t: Seq<char>| keeps_token(t)) == (if keeps_token(x) {
            s.filter(|t: Seq<char>| keeps_token(t)).push(x)
        } else {
            s.filter(|t: Seq<char>| keeps_token(t))
        }),
{
    reveal_with_fuel(Seq::filter, 1);
    assert(s.push(x).drop_last() =~= s);
}

/// Tokenize text into lowercase word tokens (length 2-100, alphanumeric/underscore/hyphen).
pub fn tokenize(text: &str) -> (res: Vec<String>)
    ensures
        string_views(res@) == tokens(text@),
{
    let cs = chars_of(text);
    let n = cs.len();
    let mut out: Vec<String> = Vec::new();
    let ghost mut done: Seq<Seq<char>> = seq![];
    let mut start: usize = 0;
    let mut finished = false;
    while !finished
        invariant
            n == cs@.len(),
            cs@ == text@,
            start <= n,
            !finished ==> done + pieces_from(cs@, start as int) == split_pieces(cs@),
            finished ==> done == split_pieces(cs@),
            string_views(out@) == done.map_values(|p: Seq<char>| lowercase(p)).filter(
                |t: Seq<char>| keeps_token(t),
            ),
        decreases (if finished { 0 } else { n + 1 - start }),
    {
        let mut j = start;
        while j < n && (char_is_alphanumeric(cs[j]) || cs[j] == '_' || cs[j] == '-')
            invariant
                n == cs@.len(),
                start <= j <= n,
                sep_pos(cs@, start as int) == sep_pos(cs@, j as int),
            decreases n - j,
        {
            j = j + 1;
        }
        let piece = string_from_chars(&cs.as_slice()[start..j]);
        let lower = str_to_lowercase(piece.as_str());
        let lower_chars = chars_of(lower.as_str());
        let blen = utf8_len_bounded(lower_chars.as_slice(), 100);
        let ghost p = cs@.subrange(start as int, j as int);
        proof {
            assert(sep_pos(cs@, j as int) == j);
            assert(piece@ =~= p);
            let rest = pieces_from(cs@, start as int);
            if j >= n {
                assert(rest == seq![p]);
            } else {
                assert(rest == seq![p] + pieces_from(cs@, j + 1));
            }
            assert(done.push(p).map_values(|q: Seq<char>| lowercase(q)) =~= done.map_values(
                |q: Seq<char>| lowercase(q),
            ).push(lowercase(p)));
            lemma_filter_push(
                done.map_values(|q: Seq<char>| lowercase(q)),
                lowercase(p),
            );
        }
        if 2 <= blen && blen <= 100 {
            let ghost before = out@;
            out.push(lower);
            proof {
                assert(string_views(out@) =~= string_views(before).push(lowercase(p)));
            }
        }
        proof {
            done = done.push(p);
        }
        if j >= n {
            finished = true;
            proof {
                assert(done =~= split_pieces(cs@));
            }
        } else {
            start = j + 1;
            proof {
                assert(done + pieces_from(cs@, start as int) =~= split_pieces(cs@));
            }
        }
    }
    out
}

} // verus!
