//! Properties of the library as a whole: what a search of a built index
//! finds, and facts about tokens, dates, transcripts and search results.
use vstd::prelude::*;
use vstd::utf8::{encode_utf8, encode_scalar};
use crate::keys::{index_key, has_prefix, lemma_key_roundtrip};
use crate::index::{Hit, word_hits, query_hits, key_hit, word_key, is_search_result};
use crate::order::StrictOrder;
use crate::indexing::{index_keys, token_pos, token_key};
use crate::tokenize::{
    tokens, keeps_token, split_pieces, pieces_from, sep_pos, is_word_char, lemma_sep_pos_bounds,
};
use crate::text::{
    utf8_len, trimmed, lemma_trimmed_idempotent, lemma_trimmed_ends, lowercase, is_ascii_text,
    ascii_lower,
    unicode_white_space,
};
use crate::transcript::{
    TurnView, BodyState, transcript_of, body_fold, close_turn, join_lines, speaker_line,
    space_paren_at_or_below,
};
use crate::date::{file_name_date, first_date_from, date_shaped};

verus! {

/// A character sequence without the NUL character.
pub open spec fn nul_free(s: Seq<char>) -> bool {
    forall|i: int| 0 <= i < s.len() ==> s[i] != '\0'
}

proof fn lemma_scalar_bytes_nonzero(c: char)
    requires
        c != '\0',
    ensures
        forall|i: int|
            0 <= i < encode_scalar(c as u32).len() ==> #[trigger] encode_scalar(c as u32)[i] != 0u8,
{
    broadcast use vstd::utf8::char_is_scalar;

    let v = c as u32;
    assert(v != 0) by {
        if v == 0 {
            vstd::utf8::char_u32_cast(c, v);
            assert((0u32 as char) == '\0');
        }
    }
    assert(v <= 0x7f && v != 0 ==> (v & 0x7f) as u8 != 0) by (bit_vector);
    assert(0xC0u8 | ((v >> 6u32) & 0x1F) as u8 != 0) by (bit_vector);
    assert(0xE0u8 | ((v >> 12u32) & 0x0F) as u8 != 0) by (bit_vector);
    assert(0xF0u8 | ((v >> 18u32) & 0x7) as u8 != 0) by (bit_vector);
    assert(0x80u8 | (v & 0x3F) as u8 != 0) by (bit_vector);
    assert(0x80u8 | ((v >> 6u32) & 0x3F) as u8 != 0) by (bit_vector);
    assert(0x80u8 | ((v >> 12u32) & 0x3F) as u8 != 0) by (bit_vector);
}

/// The UTF-8 form of a NUL-free sequence holds no 0 byte.
pub proof fn lemma_utf8_nul_free(s: Seq<char>)
    requires
        nul_free(s),
    ensures
        forall|i: int| 0 <= i < encode_utf8(s).len() ==> encode_utf8(s)[i] != 0u8,
    decreases s.len(),
{
    if s.len() > 0 {
        lemma_scalar_bytes_nonzero(s[0]);
        lemma_utf8_nul_free(s.drop_first());
        let a = encode_scalar(s[0] as u32);
        let b = encode_utf8(s.drop_first());
        assert(encode_utf8(s) == a + b);
        assert forall|i: int| 0 <= i < encode_utf8(s).len() implies encode_utf8(s)[i] != 0u8 by {
            if i < a.len() {
                assert(encode_utf8(s)[i] == a[i]);
            } else {
                assert(encode_utf8(s)[i] == b[i - a.len()]);
            }
        }
    }
}

/// Two NUL-free words: the key of one starts with the other and a 0 byte
/// only when they are the same word.
pub proof fn lemma_key_names_its_word(t: Seq<char>, w: Seq<char>, fi: u32, ei: u32)
    requires
        nul_free(t),
        nul_free(w),
        has_prefix(index_key(encode_utf8(t), fi, ei), encode_utf8(w).push(0u8)),
    ensures
        t == w,
{
    let a = encode_utf8(t);
    let b = encode_utf8(w);
    let k = index_key(a, fi, ei);
    lemma_utf8_nul_free(t);
    lemma_utf8_nul_free(w);
    assert(k.take(b.len() as int + 1) == b.push(0u8));
    assert(forall|i: int| 0 <= i < a.len() ==> k[i] == a[i]);
    assert(k[a.len() as int] == 0u8);
    if a.len() > b.len() {
        assert(k[b.len() as int] == a[b.len() as int]);
        assert(k.take(b.len() as int + 1)[b.len() as int] == 0u8);
    } else if a.len() < b.len() {
        assert(k.take(b.len() as int + 1)[a.len() as int] == b[a.len() as int]);
    } else {
        assert(a =~= b) by {
            assert forall|i: int| 0 <= i < a.len() implies a[i] == b[i] by {
                assert(k.take(b.len() as int + 1)[i] == b[i]);
            }
        }
        vstd::utf8::encode_utf8_decode_utf8(t);
        vstd::utf8::encode_utf8_decode_utf8(w);
    }
}

// ----- What a built index holds -----

/// Every token of every entry is NUL-free.
pub open spec fn tokens_nul_free(entries: Seq<Seq<Seq<char>>>) -> bool {
    forall|fi: int, ei: int, j: int|
        #![trigger tokens(entries[fi][ei])[j]]
        token_pos(entries, fi, ei, j) ==> nul_free(tokens(entries[fi][ei])[j])
}

/// File and entry numbers fit in 32 bits.
pub open spec fn numbered(entries: Seq<Seq<Seq<char>>>) -> bool {
    &&& entries.len() <= 0x1_0000_0000
    &&& forall|fi: int| 0 <= fi < entries.len() ==> #[trigger] entries[fi].len() <= 0x1_0000_0000
}

/// The hit of entry `ei` of file `fi`.
pub open spec fn hit_of(fi: int, ei: int) -> Hit {
    Hit { file_idx: fi as u32, entry_idx: ei as u32 }
}

/// The entries whose tokens include the word.
pub open spec fn token_hits(entries: Seq<Seq<Seq<char>>>, w: Seq<char>) -> Set<Hit> {
    Set::new(
        |h: Hit|
            exists|fi: int, ei: int|
                0 <= fi < entries.len() && 0 <= ei < entries[fi].len() && tokens(
                    entries[fi][ei],
                ).contains(w) && h == hit_of(fi, ei),
    )
}

/// Searching a built index for a word finds exactly the entries that have
/// the word among their tokens (for NUL-free words).
pub proof fn lemma_word_hits_of_built(entries: Seq<Seq<Seq<char>>>, w: Seq<char>)
    requires
        tokens_nul_free(entries),
        nul_free(w),
    ensures
        word_hits(index_keys(entries), encode_utf8(w)) == token_hits(entries, w),
{
    let ks = index_keys(entries);
    let b = encode_utf8(w);
    assert forall|h: Hit| word_hits(ks, b).contains(h) <==> token_hits(entries, w).contains(h) by {
        if word_hits(ks, b).contains(h) {
            let k = choose|k: Seq<u8>|
                ks.contains(k) && word_key(k, b) && key_hit(k, b.len() as int + 1) == h;
            let (fi, ei, j) = choose|fi: int, ei: int, j: int|
                token_pos(entries, fi, ei, j) && k == token_key(entries, fi, ei, j);
            let t = tokens(entries[fi][ei])[j];
            lemma_key_names_its_word(t, w, fi as u32, ei as u32);
            lemma_key_roundtrip(encode_utf8(t), fi as u32, ei as u32);
            assert(tokens(entries[fi][ei]).contains(w));
            assert(h == hit_of(fi, ei));
        }
        if token_hits(entries, w).contains(h) {
            let (fi, ei) = choose|fi: int, ei: int|
                0 <= fi < entries.len() && 0 <= ei < entries[fi].len() && tokens(
                    entries[fi][ei],
                ).contains(w) && h == hit_of(fi, ei);
            let j = choose|j: int|
                0 <= j < tokens(entries[fi][ei]).len() && tokens(entries[fi][ei])[j] == w;
            let k = token_key(entries, fi, ei, j);
            lemma_key_roundtrip(b, fi as u32, ei as u32);
            assert(ks.contains(k));
            assert(word_key(k, b) && key_hit(k, b.len() as int + 1) == h);
        }
    }
    assert(word_hits(ks, b) =~= token_hits(entries, w));
}


/// Entry `ei` of file `fi` has every query word (AND) or some query word (OR).
pub open spec fn entry_has_words(
    entries: Seq<Seq<Seq<char>>>,
    fi: int,
    ei: int,
    words: Seq<Seq<char>>,
    any: bool,
) -> bool {
    if any {
        exists|i: int| 0 <= i < words.len() && #[trigger] tokens(entries[fi][ei]).contains(words[i])
    } else {
        forall|i: int| 0 <= i < words.len() ==> #[trigger] tokens(entries[fi][ei]).contains(words[i])
    }
}

/// The hits of the entries that have the query words.
pub open spec fn matching_entries(
    entries: Seq<Seq<Seq<char>>>,
    words: Seq<Seq<char>>,
    any: bool,
) -> Set<Hit> {
    Set::new(
        |h: Hit|
            exists|fi: int, ei: int|
                0 <= fi < entries.len() && 0 <= ei < entries[fi].len() && h == hit_of(fi, ei)
                    && entry_has_words(entries, fi, ei, words, any),
    )
}

proof fn lemma_hit_of_injective(entries: Seq<Seq<Seq<char>>>, fi: int, ei: int, fj: int, ej: int)
    requires
        numbered(entries),
        0 <= fi < entries.len(),
        0 <= ei < entries[fi].len(),
        0 <= fj < entries.len(),
        0 <= ej < entries[fj].len(),
        hit_of(fi, ei) == hit_of(fj, ej),
    ensures
        fi == fj,
        ei == ej,
{
    assert(entries[fi].len() <= 0x1_0000_0000);
    assert(entries[fj].len() <= 0x1_0000_0000);
}

/// Searching a built index for a non-empty list of NUL-free words finds
/// exactly the entries that have all of the words (AND) or one of them (OR).
pub proof fn lemma_query_hits_of_built(entries: Seq<Seq<Seq<char>>>, words: Seq<Seq<char>>, any: bool)
    requires
        tokens_nul_free(entries),
        numbered(entries),
        words.len() > 0,
        forall|i: int| 0 <= i < words.len() ==> nul_free(#[trigger] words[i]),
    ensures
        query_hits(index_keys(entries), words, any) == matching_entries(entries, words, any),
    decreases words.len(),
{
    let ks = index_keys(entries);
    let last = words.last();
    lemma_word_hits_of_built(entries, last);
    if words.len() == 1 {
        assert forall|h: Hit| #[trigger] token_hits(entries, last).contains(h)
            <==> matching_entries(entries, words, any).contains(h) by {
            if token_hits(entries, last).contains(h) {
                let (fi, ei) = choose|fi: int, ei: int|
                    0 <= fi < entries.len() && 0 <= ei < entries[fi].len() && tokens(
                        entries[fi][ei],
                    ).contains(last) && h == hit_of(fi, ei);
                assert(tokens(entries[fi][ei]).contains(words[0]));
                assert(entry_has_words(entries, fi, ei, words, any));
            }
            if matching_entries(entries, words, any).contains(h) {
                let (fi, ei) = choose|fi: int, ei: int|
                    0 <= fi < entries.len() && 0 <= ei < entries[fi].len() && h == hit_of(fi, ei)
                        && entry_has_words(entries, fi, ei, words, any);
                if any {
                    let i = choose|i: int|
                        0 <= i < words.len() && #[trigger] tokens(entries[fi][ei]).contains(
                            words[i],
                        );
                    assert(i == 0);
                } else {
                    assert(tokens(entries[fi][ei]).contains(words[0]));
                }
            }
        }
        assert(token_hits(entries, last) =~= matching_entries(entries, words, any));
    } else {
        let init = words.drop_last();
        assert forall|i: int| 0 <= i < init.len() implies nul_free(#[trigger] init[i]) by {
            assert(init[i] == words[i]);
        }
        lemma_query_hits_of_built(entries, init, any);
        let n = words.len() - 1;
        assert forall|h: Hit|
            #[trigger] query_hits(ks, words, any).contains(h) <==> matching_entries(
                entries,
                words,
                any,
            ).contains(h) by {
            if any {
                if matching_entries(entries, words, any).contains(h) {
                    let (fi, ei) = choose|fi: int, ei: int|
                        0 <= fi < entries.len() && 0 <= ei < entries[fi].len() && h == hit_of(
                            fi,
                            ei,
                        ) && entry_has_words(entries, fi, ei, words, any);
                    let i = choose|i: int|
                        0 <= i < words.len() && #[trigger] tokens(entries[fi][ei]).contains(
                            words[i],
                        );
                    if i < n {
                        assert(init[i] == words[i]);
                        assert(entry_has_words(entries, fi, ei, init, any));
                        assert(matching_entries(entries, init, any).contains(h));
                    } else {
                        assert(token_hits(entries, last).contains(h));
                    }
                }
                if query_hits(ks, words, any).contains(h) {
                    if matching_entries(entries, init, any).contains(h) {
                        let (fi, ei) = choose|fi: int, ei: int|
                            0 <= fi < entries.len() && 0 <= ei < entries[fi].len() && h == hit_of(
                                fi,
                                ei,
                            ) && entry_has_words(entries, fi, ei, init, any);
                        let i = choose|i: int|
                            0 <= i < init.len() && #[trigger] tokens(entries[fi][ei]).contains(
                                init[i],
                            );
                        assert(words[i] == init[i]);
                        assert(tokens(entries[fi][ei]).contains(words[i]));
                        assert(entry_has_words(entries, fi, ei, words, any));
                    } else {
                        assert(token_hits(entries, last).contains(h));
                        let (fi, ei) = choose|fi: int, ei: int|
                            0 <= fi < entries.len() && 0 <= ei < entries[fi].len() && tokens(
                                entries[fi][ei],
                            ).contains(last) && h == hit_of(fi, ei);
                        assert(tokens(entries[fi][ei]).contains(words[n]));
                        assert(entry_has_words(entries, fi, ei, words, any));
                    }
                }
            } else {
                if matching_entries(entries, words, any).contains(h) {
                    let (fi, ei) = choose|fi: int, ei: int|
                        0 <= fi < entries.len() && 0 <= ei < entries[fi].len() && h == hit_of(
                            fi,
                            ei,
                        ) && entry_has_words(entries, fi, ei, words, any);
                    assert forall|i: int| 0 <= i < init.len() implies #[trigger] tokens(
                        entries[fi][ei],
                    ).contains(init[i]) by {
                        assert(init[i] == words[i]);
                        assert(tokens(entries[fi][ei]).contains(words[i]));
                    }
                    assert(entry_has_words(entries, fi, ei, init, any));
                    assert(matching_entries(entries, init, any).contains(h));
                    assert(tokens(entries[fi][ei]).contains(words[n]));
                    assert(token_hits(entries, last).contains(h));
                }
                if query_hits(ks, words, any).contains(h) {
                    assert(matching_entries(entries, init, any).contains(h));
                    assert(token_hits(entries, last).contains(h));
                    let (fi, ei) = choose|fi: int, ei: int|
                        0 <= fi < entries.len() && 0 <= ei < entries[fi].len() && h == hit_of(
                            fi,
                            ei,
                        ) && entry_has_words(entries, fi, ei, init, any);
                    let (fj, ej) = choose|fj: int, ej: int|
                        0 <= fj < entries.len() && 0 <= ej < entries[fj].len() && tokens(
                            entries[fj][ej],
                        ).contains(last) && h == hit_of(fj, ej);
                    lemma_hit_of_injective(entries, fi, ei, fj, ej);
                    assert forall|i: int| 0 <= i < words.len() implies #[trigger] tokens(
                        entries[fi][ei],
                    ).contains(words[i]) by {
                        if i < n {
                            assert(init[i] == words[i]);
                            assert(tokens(entries[fi][ei]).contains(init[i]));
                        }
                    }
                    assert(entry_has_words(entries, fi, ei, words, any));
                }
            }
        }
        assert(query_hits(ks, words, any) =~= matching_entries(entries, words, any));
    }
}

/// Every hit that a search of a built index can give names an existing
/// entry of an existing file.
pub proof fn lemma_built_hits_resolve(
    entries: Seq<Seq<Seq<char>>>,
    words: Seq<Seq<char>>,
    any: bool,
    h: Hit,
)
    requires
        tokens_nul_free(entries),
        numbered(entries),
        words.len() > 0,
        forall|i: int| 0 <= i < words.len() ==> nul_free(#[trigger] words[i]),
        query_hits(index_keys(entries), words, any).contains(h),
    ensures
        (h.file_idx as int) < entries.len(),
        (h.entry_idx as int) < entries[h.file_idx as int].len(),
{
    lemma_query_hits_of_built(entries, words, any);
    let (fi, ei) = choose|fi: int, ei: int|
        0 <= fi < entries.len() && 0 <= ei < entries[fi].len() && h == hit_of(fi, ei)
            && entry_has_words(entries, fi, ei, words, any);
    assert(entries[fi].len() <= 0x1_0000_0000);
}

/// Every hit of an AND search is a hit of the OR search of the same words.
pub proof fn lemma_and_within_or(keys: Set<Seq<u8>>, words: Seq<Seq<char>>)
    ensures
        query_hits(keys, words, false).subset_of(query_hits(keys, words, true)),
    decreases words.len(),
{
    if words.len() > 1 {
        lemma_and_within_or(keys, words.drop_last());
    }
}

/// A search result is determined by the hits and the limit: two results of
/// the same hits and limit are equal.
pub proof fn lemma_search_result_unique(all: Set<Hit>, max: usize, r1: Seq<Hit>, r2: Seq<Hit>)
    requires
        is_search_result(all, max, r1),
        is_search_result(all, max, r2),
    ensures
        r1 == r2,
{
    assert forall|i: int| 0 <= i < r1.len() && 0 <= i < r2.len() implies r1[i] == r2[i] by {
        lemma_search_results_agree(all, max, max, r1, r2, i);
    }
    if r1.len() < r2.len() {
        let x = r2[r1.len() as int];
        assert(all.contains(x));
        assert(r1.contains(x));
        let j = choose|j: int| 0 <= j < r1.len() && r1[j] == x;
        assert(r2[j] == x);
        assert(Hit::precedes(r2[j], r2[r1.len() as int]));
    } else if r2.len() < r1.len() {
        let x = r1[r2.len() as int];
        assert(all.contains(x));
        assert(r2.contains(x));
        let j = choose|j: int| 0 <= j < r2.len() && r2[j] == x;
        assert(r1[j] == x);
        assert(Hit::precedes(r1[j], r1[r2.len() as int]));
    }
    assert(r1 =~= r2);
}

/// A search with a smaller limit gives a prefix of the search with a
/// larger one: the first hits, in the same order.
pub proof fn lemma_search_result_prefix(
    all: Set<Hit>,
    m1: usize,
    m2: usize,
    r1: Seq<Hit>,
    r2: Seq<Hit>,
)
    requires
        is_search_result(all, m1, r1),
        is_search_result(all, m2, r2),
        m1 <= m2,
    ensures
        r1.len() <= r2.len(),
        r1 == r2.take(r1.len() as int),
{
    if r2.len() < r1.len() {
        let x = r1[r2.len() as int];
        assert(all.contains(x));
        assert(r2.contains(x));
        let j = choose|j: int| 0 <= j < r2.len() && r2[j] == x;
        lemma_search_results_agree(all, m1, m2, r1, r2, j);
        assert(r1[j] == x);
        assert(Hit::precedes(r1[j], r1[r2.len() as int]));
        Hit::lemma_irreflexive(x);
    }
    assert forall|i: int| 0 <= i < r1.len() implies r1[i] == r2.take(r1.len() as int)[i] by {
        lemma_search_results_agree(all, m1, m2, r1, r2, i);
    }
    assert(r1 =~= r2.take(r1.len() as int));
}

proof fn lemma_search_results_agree(
    all: Set<Hit>,
    m1: usize,
    m2: usize,
    r1: Seq<Hit>,
    r2: Seq<Hit>,
    i: int,
)
    requires
        is_search_result(all, m1, r1),
        is_search_result(all, m2, r2),
        0 <= i < r1.len(),
        0 <= i < r2.len(),
    ensures
        r1[i] == r2[i],
    decreases i,
{
    if i > 0 {
        lemma_search_results_agree(all, m1, m2, r1, r2, i - 1);
    }
    assert forall|m: int| 0 <= m < i implies r1[m] == r2[m] by {
        lemma_search_results_agree(all, m1, m2, r1, r2, m);
    }
    let a = r1[i];
    let b = r2[i];
    if a != b {
        Hit::lemma_total(a, b);
        if Hit::precedes(a, b) {
            // a is a hit; where does r2 hold it?
            assert(all.contains(a));
            if r2.contains(a) {
                let j = choose|j: int| 0 <= j < r2.len() && r2[j] == a;
                if j < i {
                    assert(r1[j] == a);
                    assert(Hit::precedes(r1[j], r1[i]));
                } else {
                    assert(j > i);
                    assert(Hit::precedes(r2[i], r2[j]));
                }
            } else {
                assert(Hit::precedes(r2[i], a));
            }
        } else {
            assert(all.contains(b));
            if r1.contains(b) {
                let j = choose|j: int| 0 <= j < r1.len() && r1[j] == b;
                if j < i {
                    assert(r2[j] == b);
                    assert(Hit::precedes(r2[j], r2[i]));
                } else {
                    assert(j > i);
                    assert(Hit::precedes(r1[i], r1[j]));
                }
            } else {
                assert(Hit::precedes(r1[i], b));
            }
        }
    }
}

/// A search of a built index gives, in hit order, entries that have the
/// query words, and all of them when fewer than the limit came back.
pub proof fn lemma_search_of_built(
    entries: Seq<Seq<Seq<char>>>,
    words: Seq<Seq<char>>,
    any: bool,
    max: usize,
    res: Seq<Hit>,
)
    requires
        tokens_nul_free(entries),
        numbered(entries),
        words.len() > 0,
        forall|i: int| 0 <= i < words.len() ==> nul_free(#[trigger] words[i]),
        is_search_result(query_hits(index_keys(entries), words, any), max, res),
    ensures
        forall|i: int|
            0 <= i < res.len() ==> matching_entries(entries, words, any).contains(#[trigger] res[i]),
        res.len() < max ==> forall|h: Hit|
            #[trigger] matching_entries(entries, words, any).contains(h) ==> res.contains(h),
{
    lemma_query_hits_of_built(entries, words, any);
}

/// A query without words finds nothing.
pub proof fn lemma_no_words_no_hits(keys: Set<Seq<u8>>, any: bool, max: usize, res: Seq<Hit>)
    requires
        is_search_result(query_hits(keys, Seq::<Seq<char>>::empty(), any), max, res),
    ensures
        res.len() == 0,
{
    if res.len() > 0 {
        assert(query_hits(keys, Seq::<Seq<char>>::empty(), any).contains(res[0]));
    }
}

/// Every token is 2 to 100 bytes long in UTF-8.
pub proof fn lemma_token_lengths(s: Seq<char>)
    ensures
        forall|i: int| 0 <= i < tokens(s).len() ==> 2 <= #[trigger] utf8_len(tokens(s)[i]) <= 100,
{
    let lowered = split_pieces(s).map_values(|p: Seq<char>| crate::text::lowercase(p));
    assert forall|i: int| 0 <= i < tokens(s).len() implies 2 <= #[trigger] utf8_len(tokens(s)[i])
        <= 100 by {
        lowered.lemma_filter_pred(|t: Seq<char>| keeps_token(t), i);
    }
}

/// A well-formed turn: it has a speaker, an 8-byte timestamp with a `:`,
/// and a text that is its own trim.
pub open spec fn turn_well_formed(t: TurnView) -> bool {
    &&& t.speaker.len() > 0
    &&& utf8_len(t.timestamp) == 8 && t.timestamp.contains(':')
    &&& t.text == trimmed(t.text)
}

spec fn body_state_ok(st: BodyState) -> bool {
    &&& forall|i: int| 0 <= i < st.turns.len() ==> turn_well_formed(#[trigger] st.turns[i])
    &&& st.speaker.len() > 0 ==> utf8_len(st.timestamp) == 8 && st.timestamp.contains(':')
}

proof fn lemma_close_turn_ok(st: BodyState)
    requires
        body_state_ok(st),
    ensures
        forall|i: int| 0 <= i < close_turn(st).len() ==> turn_well_formed(#[trigger] close_turn(st)[i]),
{
    if st.speaker.len() > 0 {
        lemma_trimmed_idempotent(join_lines(st.lines));
        assert forall|i: int| 0 <= i < close_turn(st).len() implies turn_well_formed(
            #[trigger] close_turn(st)[i],
        ) by {
            if i < st.turns.len() {
                assert(close_turn(st)[i] == st.turns[i]);
            }
        }
    }
}

proof fn lemma_body_fold_ok(lines: Seq<Seq<char>>)
    ensures
        body_state_ok(body_fold(lines)),
    decreases lines.len(),
{
    if lines.len() > 0 {
        lemma_body_fold_ok(lines.drop_last());
        let st = body_fold(lines.drop_last());
        lemma_close_turn_ok(st);
    }
}

/// Every turn of a parsed transcript has a speaker, an 8-byte timestamp
/// with a `:`, and a text without surrounding whitespace.
pub proof fn lemma_transcript_turns_well_formed(text: Seq<char>)
    ensures
        forall|i: int|
            0 <= i < transcript_of(text).turns.len() ==> turn_well_formed(
                #[trigger] transcript_of(text).turns[i],
            ),
{
    let lines = crate::text::text_lines(text);
    let h = crate::transcript::header_end(lines);
    lemma_body_fold_ok(lines.skip(h));
    lemma_close_turn_ok(body_fold(lines.skip(h)));
}

/// The characters of a `YYYY-MM-DD` date.
pub open spec fn date_chars(d: Seq<char>) -> bool {
    &&& d.len() == 10
    &&& forall|k: int| 0 <= k < 10 && k != 4 && k != 7 ==> '0' <= #[trigger] d[k] <= '9'
    &&& d[4] == '-' && d[7] == '-'
}

proof fn lemma_first_date_from(b: Seq<u8>, i: int)
    ensures
        first_date_from(b, i) matches Some(j) ==> 0 <= j && j + 10 <= b.len() && date_shaped(
            b.skip(j),
        ),
    decreases b.len() - i,
{
    if 0 <= i && i + 10 <= b.len() && !date_shaped(b.skip(i)) {
        lemma_first_date_from(b, i + 1);
    }
}

/// The date of a file name is `?` or has the form `YYYY-MM-DD`.
pub proof fn lemma_file_name_date_shape(name: Seq<char>)
    ensures
        file_name_date(name) == seq!['?'] || date_chars(file_name_date(name)),
{
    let b = encode_utf8(name);
    lemma_first_date_from(b, 0);
    match first_date_from(b, 0) {
        Some(j) => {
            let d = file_name_date(name);
            let w = b.skip(j);
            assert forall|k: int| 0 <= k < 10 && k != 4 && k != 7 implies '0' <= #[trigger] d[k]
                <= '9' by {
                assert(d[k] == b[j + k] as char);
                assert(w[k] == b[j + k]);
            }
            assert(w[4] == b[j + 4]);
            assert(w[7] == b[j + 7]);
        },
        None => {},
    }
}

/// Characters that are the given ASCII bytes have those bytes as their UTF-8 form.
proof fn lemma_encode_ascii(s: Seq<char>, bytes: Seq<u8>)
    requires
        s.len() == bytes.len(),
        forall|k: int| 0 <= k < bytes.len() ==> #[trigger] bytes[k] < 0x80 && s[k] == bytes[k] as char,
    ensures
        encode_utf8(s) == bytes,
    decreases s.len(),
{
    if s.len() > 0 {
        assert forall|k: int| 0 <= k < bytes.drop_first().len() implies #[trigger] bytes.drop_first()[k]
            < 0x80 && s.drop_first()[k] == bytes.drop_first()[k] as char by {
            assert(bytes.drop_first()[k] == bytes[k + 1]);
        }
        lemma_encode_ascii(s.drop_first(), bytes.drop_first());
        let v = bytes[0];
        assert(bytes[0] < 0x80 && s[0] == v as char);
        assert((v as char) as u32 == v as u32);
        assert(v < 0x80 ==> ((v as u32) & 0x7F) as u8 == v) by (bit_vector);
        assert(encode_scalar(s[0] as u32) =~= seq![v]);
        assert(encode_utf8(s) =~= bytes);
    }
}

/// The date of a file name occurs in it: unless it is `?`, its UTF-8 bytes
/// are ten consecutive bytes of the name's.
pub proof fn lemma_file_name_date_occurs(name: Seq<char>)
    ensures
        file_name_date(name) == seq!['?'] || exists|i: int|
            0 <= i && i + 10 <= encode_utf8(name).len() && encode_utf8(file_name_date(name))
                == #[trigger] encode_utf8(name).subrange(i, i + 10),
{
    let b = encode_utf8(name);
    lemma_first_date_from(b, 0);
    match first_date_from(b, 0) {
        Some(j) => {
            let d = file_name_date(name);
            let w = b.subrange(j, j + 10);
            assert forall|k: int| 0 <= k < w.len() implies #[trigger] w[k] < 0x80 && d[k] == w[k] as char by {
                assert(w[k] == b[j + k]);
                assert(b.skip(j)[k] == b[j + k]);
            }
            lemma_encode_ascii(d, w);
            assert(encode_utf8(d) == b.subrange(j, j + 10));
        },
        None => {},
    }
}

/// Where a separator stops a scan that starts in `a`, in `a + [c] + b`.
proof fn lemma_sep_pos_left(a: Seq<char>, c: char, b: Seq<char>, start: int)
    requires
        0 <= start <= a.len(),
        !is_word_char(c),
    ensures
        sep_pos(a + seq![c] + b, start) == sep_pos(a, start),
    decreases a.len() - start,
{
    let s = a + seq![c] + b;
    if start < a.len() {
        assert(s[start] == a[start]);
        if is_word_char(a[start]) {
            lemma_sep_pos_left(a, c, b, start + 1);
        }
    } else {
        assert(s[start] == c);
    }
}

/// A scan that starts in the `b` of `p + b` is the scan of `b`, shifted.
proof fn lemma_sep_pos_right(p: Seq<char>, b: Seq<char>, k: int)
    requires
        0 <= k <= b.len(),
    ensures
        sep_pos(p + b, p.len() + k) == p.len() + sep_pos(b, k),
    decreases b.len() - k,
{
    if k < b.len() {
        assert((p + b)[p.len() + k] == b[k]);
        if is_word_char(b[k]) {
            lemma_sep_pos_right(p, b, k + 1);
        }
    }
}

/// The pieces of `p + b` from a position in `b` are the pieces of `b` from there.
proof fn lemma_pieces_right(p: Seq<char>, b: Seq<char>, k: int)
    requires
        0 <= k <= b.len(),
    ensures
        pieces_from(p + b, p.len() + k) == pieces_from(b, k),
    decreases b.len() + 1 - k,
{
    let s = p + b;
    let m = p.len() as int;
    lemma_sep_pos_right(p, b, k);
    lemma_sep_pos_bounds(b, k);
    let i = sep_pos(b, k);
    if i >= b.len() {
        assert(s.subrange(m + k, s.len() as int) =~= b.subrange(k, b.len() as int));
    } else {
        assert(s.subrange(m + k, m + i) =~= b.subrange(k, i));
        lemma_pieces_right(p, b, i + 1);
    }
}

/// The pieces of `a + [c] + b` from a position in `a`: those of `a` from
/// there, then those of `b`.
proof fn lemma_pieces_left(a: Seq<char>, c: char, b: Seq<char>, start: int)
    requires
        0 <= start <= a.len(),
        !is_word_char(c),
    ensures
        pieces_from(a + seq![c] + b, start) == pieces_from(a, start) + pieces_from(b, 0),
    decreases a.len() - start,
{
    let s = a + seq![c] + b;
    lemma_sep_pos_left(a, c, b, start);
    lemma_sep_pos_bounds(a, start);
    let i = sep_pos(a, start);
    if i < a.len() {
        assert(s.subrange(start, i) =~= a.subrange(start, i));
        lemma_pieces_left(a, c, b, i + 1);
        assert(pieces_from(s, start) =~= pieces_from(a, start) + pieces_from(b, 0));
    } else {
        assert(s.subrange(start, i) =~= a.subrange(start, a.len() as int));
        assert(a + seq![c] + b == (a + seq![c]) + b);
        lemma_pieces_right(a + seq![c], b, 0);
        assert(pieces_from(s, start) =~= pieces_from(a, start) + pieces_from(b, 0));
    }
}

/// A separator never joins or splits words: the tokens of two texts joined
/// by a character that is not a word character are the tokens of the first,
/// then those of the second.
pub proof fn lemma_tokens_of_joined(a: Seq<char>, c: char, b: Seq<char>)
    requires
        !is_word_char(c),
    ensures
        tokens(a + seq![c] + b) == tokens(a) + tokens(b),
{
    lemma_pieces_left(a, c, b, 0);
    let pa = split_pieces(a);
    let pb = split_pieces(b);
    let f = |p: Seq<char>| lowercase(p);
    let keep = |t: Seq<char>| keeps_token(t);
    assert((pa + pb).map_values(f) =~= pa.map_values(f) + pb.map_values(f));
    Seq::filter_distributes_over_add(pa.map_values(f), pb.map_values(f), keep);
}

// ----- The turns of a transcript -----

proof fn lemma_space_paren(cap: Seq<char>, i: int)
    ensures
        space_paren_at_or_below(cap, i) matches Some(idx) ==> 0 <= idx <= i && idx + 1 < cap.len()
            && cap[idx] == ' ',
    decreases i + 1,
{
    if i >= 0 && !(i + 1 < cap.len() && cap[i] == ' ' && cap[i + 1] == '(') {
        lemma_space_paren(cap, i - 1);
    }
}

/// The name a speaker line gives is never empty.
pub proof fn lemma_speaker_name_nonempty(line: Seq<char>)
    ensures
        speaker_line(line) matches Some((name, ts)) ==> name.len() > 0,
{
    let t = trimmed(line);
    if t.len() > 0 && t.last() == ')' {
        let cap = t.drop_last();
        lemma_space_paren(cap, cap.len() - 2);
        lemma_trimmed_ends(line);
        match space_paren_at_or_below(cap, cap.len() - 2) {
            Some(idx) => {
                assert(cap[0] == t[0]);
                assert(unicode_white_space(' '));
                assert(idx >= 1);
                let x = cap.take(idx);
                assert(x[0] == t[0]);
                lemma_trimmed_ends(x);
            },
            None => {},
        }
    }
}

/// The positions of the lines that open a turn, in order.
pub open spec fn speaker_positions(lines: Seq<Seq<char>>) -> Seq<int>
    decreases lines.len(),
{
    if lines.len() == 0 {
        seq![]
    } else {
        let p = speaker_positions(lines.drop_last());
        if speaker_line(lines.last()) is Some {
            p.push(lines.len() - 1)
        } else {
            p
        }
    }
}

/// The turn the `k`-th speaker line opens: the name and timestamp of that
/// line, and the trimmed lines after it up to the next speaker line or the
/// end, joined by newlines.
pub open spec fn turn_at(lines: Seq<Seq<char>>, k: int) -> TurnView {
    let p = speaker_positions(lines);
    let i = p[k];
    let j = if k + 1 < p.len() {
        p[k + 1]
    } else {
        lines.len() as int
    };
    TurnView {
        speaker: speaker_line(lines[i])->Some_0.0,
        timestamp: speaker_line(lines[i])->Some_0.1,
        text: trimmed(join_lines(lines.subrange(i + 1, j))),
    }
}

proof fn lemma_speaker_positions(lines: Seq<Seq<char>>)
    ensures
        forall|k: int|
            0 <= k < speaker_positions(lines).len() ==> 0 <= #[trigger] speaker_positions(lines)[k]
                < lines.len() && speaker_line(lines[speaker_positions(lines)[k]]) is Some,
        forall|k: int, l: int|
            0 <= k < l < speaker_positions(lines).len() ==> #[trigger] speaker_positions(lines)[k]
                < #[trigger] speaker_positions(lines)[l],
    decreases lines.len(),
{
    if lines.len() > 0 {
        let init = lines.drop_last();
        lemma_speaker_positions(init);
        let p = speaker_positions(init);
        assert forall|k: int| 0 <= k < p.len() implies lines[p[k]] == init[p[k]] by {}
    }
}

/// What the body parser holds after some lines: the turns of all but the
/// last speaker line, and the open turn of the last one.
spec fn fold_matches(lines: Seq<Seq<char>>) -> bool {
    let st = body_fold(lines);
    let p = speaker_positions(lines);
    let n = p.len();
    &&& n == 0 ==> st.speaker.len() == 0 && st.turns.len() == 0
    &&& n > 0 ==> {
        &&& st.speaker.len() > 0
        &&& st.turns.len() == n - 1
        &&& st.speaker == speaker_line(lines[p[n - 1]])->Some_0.0
        &&& st.timestamp == speaker_line(lines[p[n - 1]])->Some_0.1
        &&& st.lines == lines.subrange(p[n - 1] + 1, lines.len() as int)
    }
    &&& forall|k: int| 0 <= k < st.turns.len() ==> #[trigger] st.turns[k] == turn_at(lines, k)
}

proof fn lemma_fold_matches(lines: Seq<Seq<char>>)
    ensures
        fold_matches(lines),
    decreases lines.len(),
{
    if lines.len() > 0 {
        let init = lines.drop_last();
        let x = lines.last();
        let m = init.len() as int;
        lemma_fold_matches(init);
        lemma_speaker_positions(init);
        lemma_speaker_positions(lines);
        lemma_speaker_name_nonempty(x);
        let st = body_fold(init);
        let p = speaker_positions(init);
        let q = speaker_positions(lines);
        let n = p.len();
        assert(lines == init.push(x));
        // Turns closed before keep their lines: they lie within `init`.
        assert forall|k: int| 0 <= k < st.turns.len() implies turn_at(lines, k) == turn_at(init, k) by {
            assert(q[k] == p[k] && q[k + 1] == p[k + 1]);
            assert(lines[p[k]] == init[p[k]]);
            assert(lines.subrange(p[k] + 1, p[k + 1]) =~= init.subrange(p[k] + 1, p[k + 1]));
        }
        match speaker_line(x) {
            Some((name, ts)) => {
                assert(q == p.push(m));
                let st2 = body_fold(lines);
                assert(st2.lines =~= lines.subrange(m + 1, lines.len() as int));
                if n > 0 {
                    let i = p[n - 1];
                    assert(lines[i] == init[i]);
                    assert(lines.subrange(i + 1, m) =~= init.subrange(i + 1, m));
                    assert(turn_at(lines, n - 1).text == trimmed(join_lines(st.lines)));
                    assert forall|k: int| 0 <= k < st2.turns.len() implies #[trigger] st2.turns[k]
                        == turn_at(lines, k) by {
                        if k < n - 1 {
                            assert(st2.turns[k] == st.turns[k]);
                        }
                    }
                }
            },
            None => {
                assert(q == p);
                if n > 0 {
                    let i = p[n - 1];
                    assert(lines[i] == init[i]);
                    assert(lines.subrange(i + 1, lines.len() as int) =~= init.subrange(i + 1, m).push(x));
                }
            },
        }
    }
}

/// The turns of a transcript are those its speaker lines open, one per
/// speaker line of the body, in order: each has the name and timestamp of
/// its line, and as text the body lines after it up to the next speaker line
/// (or the end), joined by newlines and trimmed. Body lines before the first
/// speaker line belong to no turn.
pub proof fn lemma_transcript_turns(text: Seq<char>)
    ensures
        ({
            let lines = crate::text::text_lines(text);
            let body = lines.skip(crate::transcript::header_end(lines));
            &&& transcript_of(text).turns.len() == speaker_positions(body).len()
            &&& forall|k: int|
                0 <= k < speaker_positions(body).len() ==> #[trigger] transcript_of(text).turns[k]
                    == turn_at(body, k)
        }),
{
    let lines = crate::text::text_lines(text);
    let body = lines.skip(crate::transcript::header_end(lines));
    lemma_fold_matches(body);
    let st = body_fold(body);
    let n = speaker_positions(body).len();
    if n > 0 {
        let t = close_turn(st);
        assert forall|k: int| 0 <= k < n implies #[trigger] t[k] == turn_at(body, k) by {
            if k < n - 1 {
                assert(t[k] == st.turns[k]);
            }
        }
    }
}

// ----- Tokens of ASCII text -----

/// A character that an ASCII token is made of: a lowercase letter, a digit,
/// `_` or `-`.
pub open spec fn ascii_token_char(c: char) -> bool {
    ('a' <= c <= 'z') || ('0' <= c <= '9') || c == '_' || c == '-'
}

/// The scan for a separator passes only word characters.
proof fn lemma_sep_pos_word_chars(s: Seq<char>, from: int)
    requires
        0 <= from <= s.len(),
    ensures
        forall|k: int| from <= k < sep_pos(s, from) ==> is_word_char(#[trigger] s[k]),
    decreases s.len() - from,
{
    if from < s.len() && is_word_char(s[from]) {
        lemma_sep_pos_word_chars(s, from + 1);
    }
}

/// A text of word characters only has no separator in it.
proof fn lemma_sep_pos_none(s: Seq<char>, from: int)
    requires
        0 <= from <= s.len(),
        forall|k: int| 0 <= k < s.len() ==> is_word_char(#[trigger] s[k]),
    ensures
        sep_pos(s, from) == s.len(),
    decreases s.len() - from,
{
    if from < s.len() {
        lemma_sep_pos_none(s, from + 1);
    }
}

/// The pieces of an ASCII text are ASCII word characters.
proof fn lemma_ascii_pieces(s: Seq<char>, start: int)
    requires
        is_ascii_text(s),
        0 <= start,
    ensures
        forall|k: int, i: int|
            0 <= k < pieces_from(s, start).len() && 0 <= i < pieces_from(s, start)[k].len()
                ==> is_word_char(#[trigger] pieces_from(s, start)[k][i]) && (pieces_from(s, start)[k][i]
                as u32) < 0x80,
    decreases s.len() + 1 - start,
{
    if start <= s.len() {
        lemma_sep_pos_bounds(s, start);
        lemma_sep_pos_word_chars(s, start);
        let i = sep_pos(s, start);
        if i < s.len() {
            lemma_ascii_pieces(s, i + 1);
        }
        let ps = pieces_from(s, start);
        assert forall|k: int, j: int| 0 <= k < ps.len() && 0 <= j < ps[k].len() implies is_word_char(
            #[trigger] ps[k][j],
        ) && (ps[k][j] as u32) < 0x80 by {
            if k == 0 {
                assert(ps[0][j] == s[start + j]);
            } else {
                assert(ps[k] == pieces_from(s, i + 1)[k - 1]);
            }
        }
    }
}

/// An ASCII text's UTF-8 form is one byte per character.
pub proof fn lemma_ascii_utf8_len(t: Seq<char>)
    requires
        is_ascii_text(t),
    ensures
        utf8_len(t) == t.len(),
{
    let bytes = Seq::new(t.len(), |k: int| t[k] as u32 as u8);
    assert forall|k: int| 0 <= k < bytes.len() implies #[trigger] bytes[k] < 0x80 && t[k] == bytes[k]
        as char by {
        let v = t[k] as u32;
        assert(v < 0x80);
        assert((v as u8) as u32 == v);
        vstd::utf8::char_u32_cast(t[k], v);
    }
    lemma_encode_ascii(t, bytes);
}

/// The tokens of ASCII text are 2 to 100 lowercase letters, digits, `_`
/// and `-`.
pub proof fn lemma_ascii_tokens(s: Seq<char>)
    requires
        is_ascii_text(s),
    ensures
        forall|k: int|
            0 <= k < tokens(s).len() ==> 2 <= (#[trigger] tokens(s)[k]).len() <= 100 && forall|i: int|
                0 <= i < tokens(s)[k].len() ==> ascii_token_char(#[trigger] tokens(s)[k][i]),
{
    let ps = split_pieces(s);
    lemma_ascii_pieces(s, 0);
    let f = |p: Seq<char>| lowercase(p);
    let keep = |t: Seq<char>| keeps_token(t);
    let lowered = ps.map_values(f);
    assert forall|k: int| 0 <= k < tokens(s).len() implies 2 <= (#[trigger] tokens(s)[k]).len() <= 100
        && forall|i: int| 0 <= i < tokens(s)[k].len() ==> ascii_token_char(#[trigger] tokens(s)[k][i]) by {
        let t = tokens(s)[k];
        lowered.lemma_filter_pred(keep, k);
        assert(lowered.filter(keep).contains(t));
        lowered.lemma_filter_contains_rev(keep, t);
        let m = choose|m: int| 0 <= m < lowered.len() && lowered[m] == t;
        let p = ps[m];
        assert(is_ascii_text(p)) by {
            assert forall|i: int| 0 <= i < p.len() implies (#[trigger] p[i] as u32) < 0x80 by {
                assert(is_word_char(ps[m][i]));
            }
        }
        assert(t == p.map_values(|c: char| ascii_lower(c)));
        assert forall|i: int| 0 <= i < t.len() implies ascii_token_char(#[trigger] t[i]) by {
            assert(is_word_char(ps[m][i]));
            assert(t[i] == ascii_lower(p[i]));
        }
        assert(is_ascii_text(t));
        lemma_ascii_utf8_len(t);
    }
}

/// A token of ASCII text tokenizes to itself.
pub proof fn lemma_ascii_token_is_own_token(t: Seq<char>)
    requires
        2 <= t.len() <= 100,
        forall|i: int| 0 <= i < t.len() ==> ascii_token_char(#[trigger] t[i]),
    ensures
        tokens(t) == seq![t],
{
    assert forall|i: int| 0 <= i < t.len() implies is_word_char(#[trigger] t[i]) && (t[i] as u32)
        < 0x80 by {
        assert(ascii_token_char(t[i]));
    }
    lemma_sep_pos_none(t, 0);
    assert(split_pieces(t) =~= seq![t.subrange(0, t.len() as int)]);
    assert(t.subrange(0, t.len() as int) =~= t);
    assert(t.map_values(|c: char| ascii_lower(c)) =~= t);
    assert(lowercase(t) == t);
    let f = |p: Seq<char>| lowercase(p);
    let keep = |x: Seq<char>| keeps_token(x);
    assert(seq![t].map_values(f) =~= seq![t]);
    lemma_ascii_utf8_len(t);
    assert(keeps_token(t));
    crate::text::lemma_filter_push(Seq::<Seq<char>>::empty(), t, keep);
    assert(Seq::<Seq<char>>::empty().push(t) =~= seq![t]);
    assert(Seq::<Seq<char>>::empty().filter(keep) =~= Seq::<Seq<char>>::empty()) by {
        reveal_with_fuel(Seq::filter, 1);
    }
    assert(Seq::<Seq<char>>::empty().push(t) =~= seq![t]);
}

/// Words joined by single spaces.
pub open spec fn join_spaces(ws: Seq<Seq<char>>) -> Seq<char>
    decreases ws.len(),
{
    if ws.len() == 0 {
        seq![]
    } else if ws.len() == 1 {
        ws[0]
    } else {
        join_spaces(ws.drop_last()) + seq![' '] + ws.last()
    }
}

proof fn lemma_tokens_of_join(ws: Seq<Seq<char>>)
    requires
        forall|k: int| 0 <= k < ws.len() ==> tokens(#[trigger] ws[k]) == seq![ws[k]],
    ensures
        tokens(join_spaces(ws)) == ws,
    decreases ws.len(),
{
    if ws.len() == 0 {
        let e = Seq::<char>::empty();
        assert(sep_pos(e, 0) == 0);
        assert(e.subrange(0, 0) =~= e);
        assert(split_pieces(e) =~= seq![e]);
        assert(e.map_values(|c: char| ascii_lower(c)) =~= e);
        assert(seq![e].map_values(|p: Seq<char>| lowercase(p)) =~= seq![e]);
        lemma_ascii_utf8_len(e);
        crate::text::lemma_filter_push(Seq::<Seq<char>>::empty(), e, |x: Seq<char>| keeps_token(x));
        assert(Seq::<Seq<char>>::empty().push(e) =~= seq![e]);
        assert(Seq::<Seq<char>>::empty().filter(|x: Seq<char>| keeps_token(x)) =~= Seq::<
            Seq<char>,
        >::empty()) by {
            reveal_with_fuel(Seq::filter, 1);
        }
        assert(tokens(join_spaces(ws)) =~= ws);
    } else if ws.len() == 1 {
        assert(tokens(ws[0]) == seq![ws[0]]);
        assert(ws =~= seq![ws[0]]);
    } else {
        let init = ws.drop_last();
        assert forall|k: int| 0 <= k < init.len() implies tokens(#[trigger] init[k]) == seq![init[k]] by {
            assert(init[k] == ws[k]);
        }
        lemma_tokens_of_join(init);
        assert(!is_word_char(' '));
        lemma_tokens_of_joined(join_spaces(init), ' ', ws.last());
        assert(tokens(ws.last()) == seq![ws.last()]) by {
            assert(ws.last() == ws[ws.len() - 1]);
        }
        assert(ws =~= init + seq![ws.last()]);
    }
}

/// Tokenizing ASCII text is idempotent: each token tokenizes to itself, and
/// the tokens joined by spaces tokenize to the same tokens.
pub proof fn lemma_ascii_tokenize_idempotent(s: Seq<char>)
    requires
        is_ascii_text(s),
    ensures
        forall|k: int| 0 <= k < tokens(s).len() ==> tokens(#[trigger] tokens(s)[k]) == seq![tokens(s)[k]],
        tokens(join_spaces(tokens(s))) == tokens(s),
{
    lemma_ascii_tokens(s);
    assert forall|k: int| 0 <= k < tokens(s).len() implies tokens(#[trigger] tokens(s)[k]) == seq![
        tokens(s)[k],
    ] by {
        lemma_ascii_token_is_own_token(tokens(s)[k]);
    }
    lemma_tokens_of_join(tokens(s));
}
} // verus!
