//! The index: an FST set of keys with the manifest of indexed files, and the
//! AND / OR search over it.
use vstd::prelude::*;
use vstd::utf8::encode_utf8;
use crate::keys::{bytes_lt, has_prefix, key_payload, lemma_prefix_range, read_be_u32};
use crate::order::{
    StrictOrder, strictly_sorted, views, view_set, sort_unique, merge_union, merge_intersection,
    lemma_sorted_unique, lemma_to_set_push,
};
use crate::fstset::{
    fst_set_keys, fst_set_well_formed, fst_bytes_keys, fst_set_from_bytes, fst_keys_in_range,
    fst_header_ok, fst_fields_fit,
};
use crate::tokenize::{tokenize, tokens, string_views};

verus! {

/// Where a search hit points: an entry of a file, both by position.
#[derive(Debug, Clone, Copy, PartialEq, Eq, Structural)]
pub struct Hit {
    pub file_idx: u32,
    pub entry_idx: u32,
}

impl View for Hit {
    type V = Hit;

    open spec fn view(&self) -> Hit {
        *self
    }
}

/// Hits are ordered by file, last file first, then by entry, first entry first.
impl StrictOrder for Hit {
    open spec fn precedes(a: Hit, b: Hit) -> bool {
        a.file_idx > b.file_idx || (a.file_idx == b.file_idx && a.entry_idx < b.entry_idx)
    }

    proof fn lemma_irreflexive(a: Hit) {
    }

    proof fn lemma_transitive(a: Hit, b: Hit, c: Hit) {
    }

    proof fn lemma_total(a: Hit, b: Hit) {
    }

    fn precedes_exec(&self, other: &Self) -> (r: bool) {
        self.file_idx > other.file_idx || (self.file_idx == other.file_idx && self.entry_idx
            < other.entry_idx)
    }
}

/// Options of a search: at most `max_results` hits; any word (`any`) or all words.
#[derive(Debug, Clone)]
pub struct SearchOpts {
    pub max_results: usize,
    pub any: bool,
}

impl Default for SearchOpts {
    fn default() -> (res: Self)
        ensures
            res.max_results == 20,
            !res.any,
    {
        SearchOpts { max_results: 20, any: false }
    }
}

/// What the manifest records of an indexed file.
#[derive(Debug, Clone)]
pub struct FileEntry {
    pub filename: String,
    pub title: String,
    pub date: String,
    pub source: String,
}

/// The contents of a manifest entry.
pub struct EntryView {
    pub filename: Seq<char>,
    pub title: Seq<char>,
    pub date: Seq<char>,
    pub source: Seq<char>,
}

impl View for FileEntry {
    type V = EntryView;

    open spec fn view(&self) -> EntryView {
        EntryView {
            filename: self.filename@,
            title: self.title@,
            date: self.date@,
            source: self.source@,
        }
    }
}

/// The indexed files, in the order of their file numbers.
pub struct Manifest {
    pub files: Vec<FileEntry>,
}

/// What can go wrong while building or opening an index.
#[derive(Debug, Clone, Copy, PartialEq, Eq, Structural)]
pub enum IndexError {
    /// The FST could not be built or read.
    Fst,
    /// The file name pattern is not a valid glob pattern.
    Pattern,
}

/// An opened index: a well-formed FST set of keys and the manifest.
pub struct Index {
    fst: fst::Set<Vec<u8>>,
    manifest: Manifest,
}

// ----- The meaning of a search -----

/// The hit a key names, reading its payload after a prefix of length `plen`.
pub open spec fn key_hit(k: Seq<u8>, plen: int) -> Hit {
    Hit { file_idx: key_payload(k, plen).0, entry_idx: key_payload(k, plen).1 }
}

/// A key that belongs to a word: it starts with the word's bytes and a 0
/// byte, followed by at least eight more bytes.
pub open spec fn word_key(k: Seq<u8>, word: Seq<u8>) -> bool {
    has_prefix(k, word.push(0u8)) && k.len() >= word.len() + 9
}

/// The hits of one word (given by its UTF-8 bytes) in a set of keys.
pub open spec fn word_hits(keys: Set<Seq<u8>>, word: Seq<u8>) -> Set<Hit> {
    Set::new(
        |h: Hit|
            exists|k: Seq<u8>|
                keys.contains(k) && word_key(k, word) && key_hit(k, word.len() as int + 1) == h,
    )
}

/// The keys of a set from `lo` (inclusive) to `hi` (exclusive), in increasing order.
pub open spec fn range_keys(keys: Set<Seq<u8>>, lo: Seq<u8>, hi: Seq<u8>) -> Seq<Seq<u8>> {
    choose|s: Seq<Seq<u8>>|
        strictly_sorted::<Vec<u8>>(s) && forall|k: Seq<u8>|
            #[trigger] s.to_set().contains(k) <==> (keys.contains(k) && !bytes_lt(k, lo) && bytes_lt(
                k,
                hi,
            ))
}

/// Reading the keys `ks` in order from position `i`, with the distinct hits
/// `acc` found so far: the distinct hits found when their number first
/// exceeds `cap`, or at the end of the keys.
pub open spec fn capped_from(ks: Seq<Seq<u8>>, i: int, acc: Seq<Hit>, plen: int, cap: int) -> Seq<
    Hit,
>
    decreases ks.len() - i,
{
    if i < 0 || i >= ks.len() {
        acc
    } else if ks[i].len() < plen + 8 {
        capped_from(ks, i + 1, acc, plen, cap)
    } else {
        let h = key_hit(ks[i], plen);
        let next = if acc.contains(h) {
            acc
        } else {
            acc.push(h)
        };
        if next.len() > cap {
            next
        } else {
            capped_from(ks, i + 1, next, plen, cap)
        }
    }
}

/// The hits of one word, all of them (`None`) or, reading its keys in
/// order, those found until there are more than `cap` (`Some(cap)`).
pub open spec fn word_hits_upto(keys: Set<Seq<u8>>, word: Seq<u8>, limit: Option<usize>) -> Set<
    Hit,
> {
    match limit {
        None => word_hits(keys, word),
        Some(cap) => capped_from(
            range_keys(keys, word.push(0u8), word.push(1u8)),
            0,
            seq![],
            word.len() as int + 1,
            cap as int,
        ).to_set(),
    }
}

/// The hits of a list of query words, each word's hits limited as
/// `word_hits_upto` says: those of every word (AND) or of any word (OR);
/// none for no words.
pub open spec fn query_hits_upto(
    keys: Set<Seq<u8>>,
    words: Seq<Seq<char>>,
    any: bool,
    limit: Option<usize>,
) -> Set<Hit>
    decreases words.len(),
{
    if words.len() == 0 {
        Set::empty()
    } else if words.len() == 1 {
        word_hits_upto(keys, encode_utf8(words[0]), limit)
    } else {
        let rest = query_hits_upto(keys, words.drop_last(), any, limit);
        let last = word_hits_upto(keys, encode_utf8(words.last()), limit);
        if any {
            rest.union(last)
        } else {
            rest.intersect(last)
        }
    }
}

/// The hits of a list of query words: those of every word (AND) or of any
/// word (OR); none for no words.
pub open spec fn query_hits(keys: Set<Seq<u8>>, words: Seq<Seq<char>>, any: bool) -> Set<Hit> {
    query_hits_upto(keys, words, any, None)
}

/// What reading keys from position `i` on finds, starting from the hits
/// `acc`: hits of `acc`, and hits named by long enough keys from `i` on.
proof fn lemma_capped_from_within(ks: Seq<Seq<u8>>, i: int, acc: Seq<Hit>, plen: int, cap: int)
    ensures
        forall|h: Hit|
            #[trigger] capped_from(ks, i, acc, plen, cap).contains(h) ==> acc.contains(h) || exists|
                m: int,
            |
                i <= m < ks.len() && ks[m].len() >= plen + 8 && key_hit(#[trigger] ks[m], plen)
                    == h,
    decreases ks.len() - i,
{
    if i < 0 || i >= ks.len() {
    } else if ks[i].len() < plen + 8 {
        lemma_capped_from_within(ks, i + 1, acc, plen, cap);
        assert(capped_from(ks, i, acc, plen, cap) == capped_from(ks, i + 1, acc, plen, cap));
        assert forall|h: Hit| #[trigger]
            capped_from(ks, i, acc, plen, cap).contains(h) implies acc.contains(h) || exists|m: int|
            i <= m < ks.len() && ks[m].len() >= plen + 8 && key_hit(#[trigger] ks[m], plen) == h by {
            assert(capped_from(ks, i + 1, acc, plen, cap).contains(h));
            if !acc.contains(h) {
                let m = choose|m: int|
                    i + 1 <= m < ks.len() && ks[m].len() >= plen + 8 && key_hit(#[trigger] ks[m], plen)
                        == h;
                assert(i <= m);
            }
        }
    } else {
        let h0 = key_hit(ks[i], plen);
        let next = if acc.contains(h0) {
            acc
        } else {
            acc.push(h0)
        };
        if next.len() <= cap {
            lemma_capped_from_within(ks, i + 1, next, plen, cap);
            assert(capped_from(ks, i, acc, plen, cap) == capped_from(ks, i + 1, next, plen, cap));
        } else {
            assert(capped_from(ks, i, acc, plen, cap) == next);
        }
        assert forall|h: Hit| #[trigger]
            capped_from(ks, i, acc, plen, cap).contains(h) implies acc.contains(h) || exists|m: int|
            i <= m < ks.len() && ks[m].len() >= plen + 8 && key_hit(#[trigger] ks[m], plen) == h by {
            if next.len() <= cap {
                assert(capped_from(ks, i + 1, next, plen, cap).contains(h));
            }
            if !acc.contains(h) {
                if next.contains(h) {
                    if !acc.contains(h) {
                        let q = choose|q: int| 0 <= q < next.len() && next[q] == h;
                        if q < acc.len() {
                            assert(acc[q] == next[q]);
                        }
                        assert(h == h0);
                        assert(key_hit(ks[i], plen) == h);
                    }
                } else {
                    let m = choose|m: int|
                        i + 1 <= m < ks.len() && ks[m].len() >= plen + 8 && key_hit(
                            #[trigger] ks[m],
                            plen,
                        ) == h;
                    assert(i <= m);
                }
            }
        }
    }
}

/// The hits named by the keys `ks` long enough to hold one, from position
/// `i` on.
pub open spec fn hits_from(ks: Seq<Seq<u8>>, i: int, plen: int) -> Set<Hit> {
    Set::new(
        |h: Hit|
            exists|m: int|
                i <= m < ks.len() && ks[m].len() >= plen + 8 && key_hit(#[trigger] ks[m], plen) == h,
    )
}

/// Whether a word's hits fit its limit: always for no limit, else when
/// they are at most `cap`.
pub open spec fn within_limit(hits: Set<Hit>, limit: Option<usize>) -> bool {
    match limit {
        None => true,
        Some(cap) => hits.len() <= cap,
    }
}

/// When all the hits that can be found lie in a set of at most `cap` hits,
/// reading never stops early: it finds every hit named from `i` on.
proof fn lemma_capped_from_full(
    ks: Seq<Seq<u8>>,
    i: int,
    acc: Seq<Hit>,
    plen: int,
    cap: int,
    w: Set<Hit>,
)
    requires
        0 <= i <= ks.len(),
        acc.no_duplicates(),
        w.finite(),
        w.len() <= cap,
        acc.to_set().subset_of(w),
        hits_from(ks, i, plen).subset_of(w),
    ensures
        capped_from(ks, i, acc, plen, cap).to_set() == acc.to_set().union(hits_from(ks, i, plen)),
    decreases ks.len() - i,
{
    if i == ks.len() {
        assert(hits_from(ks, i, plen) =~= Set::<Hit>::empty());
        assert(acc.to_set().union(hits_from(ks, i, plen)) =~= acc.to_set());
    } else if ks[i].len() < plen + 8 {
        assert(hits_from(ks, i, plen) =~= hits_from(ks, i + 1, plen)) by {
            assert forall|h: Hit| #[trigger] hits_from(ks, i, plen).contains(h) implies hits_from(
                ks,
                i + 1,
                plen,
            ).contains(h) by {
                let m = choose|m: int|
                    i <= m < ks.len() && ks[m].len() >= plen + 8 && key_hit(#[trigger] ks[m], plen)
                        == h;
                assert(m != i);
            }
            assert forall|h: Hit| #[trigger] hits_from(ks, i + 1, plen).contains(h) implies hits_from(
                ks,
                i,
                plen,
            ).contains(h) by {
                let m = choose|m: int|
                    i + 1 <= m < ks.len() && ks[m].len() >= plen + 8 && key_hit(#[trigger] ks[m], plen)
                        == h;
                assert(i <= m);
            }
        }
        lemma_capped_from_full(ks, i + 1, acc, plen, cap, w);
    } else {
        let h0 = key_hit(ks[i], plen);
        assert(hits_from(ks, i, plen).contains(h0));
        let next = if acc.contains(h0) {
            acc
        } else {
            acc.push(h0)
        };
        assert(next.to_set() =~= acc.to_set().insert(h0)) by {
            lemma_to_set_push(acc, h0);
        }
        assert(next.no_duplicates()) by {
            if !acc.contains(h0) {
                assert forall|a: int, b: int| 0 <= a < b < next.len() implies next[a] != next[b] by {
                    if b == acc.len() {
                        assert(next[a] == acc[a]);
                    } else {
                        assert(next[a] == acc[a] && next[b] == acc[b]);
                    }
                }
            }
        }
        next.unique_seq_to_set();
        vstd::set_lib::lemma_len_subset(next.to_set(), w);
        assert(hits_from(ks, i, plen) =~= hits_from(ks, i + 1, plen).insert(h0)) by {
            assert forall|h: Hit| #[trigger] hits_from(ks, i, plen).contains(h) implies hits_from(
                ks,
                i + 1,
                plen,
            ).insert(h0).contains(h) by {
                let m = choose|m: int|
                    i <= m < ks.len() && ks[m].len() >= plen + 8 && key_hit(#[trigger] ks[m], plen)
                        == h;
                if m != i {
                    assert(hits_from(ks, i + 1, plen).contains(h));
                }
            }
            assert forall|h: Hit| #[trigger] hits_from(ks, i + 1, plen).contains(h) implies hits_from(
                ks,
                i,
                plen,
            ).contains(h) by {
                let m = choose|m: int|
                    i + 1 <= m < ks.len() && ks[m].len() >= plen + 8 && key_hit(#[trigger] ks[m], plen)
                        == h;
                assert(i <= m);
            }
        }
        lemma_capped_from_full(ks, i + 1, next, plen, cap, w);
        assert(capped_from(ks, i, acc, plen, cap) == capped_from(ks, i + 1, next, plen, cap));
        assert(acc.to_set().union(hits_from(ks, i, plen)) =~= next.to_set().union(
            hits_from(ks, i + 1, plen),
        ));
    }
}

/// When each word's limited hits are all its hits, so are those of the
/// whole query.
proof fn lemma_limited_query_equal(
    keys: Set<Seq<u8>>,
    words: Seq<Seq<char>>,
    any: bool,
    limit: Option<usize>,
)
    requires
        forall|m: int|
            0 <= m < words.len() ==> word_hits_upto(keys, encode_utf8(#[trigger] words[m]), limit)
                == word_hits(keys, encode_utf8(words[m])),
    ensures
        query_hits_upto(keys, words, any, limit) == query_hits(keys, words, any),
    decreases words.len(),
{
    if words.len() == 0 {
    } else if words.len() == 1 {
        assert(word_hits_upto(keys, encode_utf8(words[0]), limit) == word_hits(
            keys,
            encode_utf8(words[0]),
        ));
    } else {
        let init = words.drop_last();
        assert forall|m: int| 0 <= m < init.len() implies word_hits_upto(
            keys,
            encode_utf8(#[trigger] init[m]),
            limit,
        ) == word_hits(keys, encode_utf8(init[m])) by {
            assert(init[m] == words[m]);
        }
        lemma_limited_query_equal(keys, init, any, limit);
        assert(words.last() == words[words.len() - 1]);
        assert(word_hits_upto(keys, encode_utf8(words.last()), limit) == word_hits(
            keys,
            encode_utf8(words.last()),
        ));
    }
}

/// When each word's limited hits are among its hits, so are those of the
/// whole query.
proof fn lemma_limited_query_within(
    keys: Set<Seq<u8>>,
    words: Seq<Seq<char>>,
    any: bool,
    limit: Option<usize>,
)
    requires
        forall|m: int|
            0 <= m < words.len() ==> word_hits_upto(keys, encode_utf8(#[trigger] words[m]), limit).subset_of(
                word_hits(keys, encode_utf8(words[m])),
            ),
    ensures
        query_hits_upto(keys, words, any, limit).subset_of(query_hits(keys, words, any)),
    decreases words.len(),
{
    if words.len() == 0 {
    } else if words.len() == 1 {
        assert(word_hits_upto(keys, encode_utf8(words[0]), limit).subset_of(
            word_hits(keys, encode_utf8(words[0])),
        ));
    } else {
        let init = words.drop_last();
        assert forall|m: int|
            0 <= m < init.len() implies word_hits_upto(
                keys,
                encode_utf8(#[trigger] init[m]),
                limit,
            ).subset_of(word_hits(keys, encode_utf8(init[m]))) by {
            assert(init[m] == words[m]);
        }
        lemma_limited_query_within(keys, init, any, limit);
        assert(words.last() == words[words.len() - 1]);
        assert(word_hits_upto(keys, encode_utf8(words.last()), limit).subset_of(
            word_hits(keys, encode_utf8(words.last())),
        ));
    }
}

/// `res` lists, in hit order and without repeats, the first `max` hits of
/// `all` (all of them when there are fewer).
pub open spec fn is_search_result(all: Set<Hit>, max: usize, res: Seq<Hit>) -> bool {
    &&& strictly_sorted::<Hit>(res)
    &&& forall|i: int| 0 <= i < res.len() ==> all.contains(#[trigger] res[i])
    &&& res.len() <= max
    &&& res.len() < max ==> forall|h: Hit| #[trigger] all.contains(h) ==> res.contains(h)
    &&& forall|h: Hit, i: int|
        #![trigger all.contains(h), res[i]]
        all.contains(h) && !res.contains(h) && 0 <= i < res.len() ==> Hit::precedes(res[i], h)
}

/// In AND mode, every hit of the query is a hit of each of its words.
pub proof fn lemma_and_hits_within_word(
    keys: Set<Seq<u8>>,
    words: Seq<Seq<char>>,
    limit: Option<usize>,
    j: int,
)
    requires
        0 <= j < words.len(),
    ensures
        query_hits_upto(keys, words, false, limit).subset_of(
            word_hits_upto(keys, encode_utf8(words[j]), limit),
        ),
    decreases words.len(),
{
    if words.len() > 1 && j < words.len() - 1 {
        lemma_and_hits_within_word(keys, words.drop_last(), limit, j);
    }
}

/// Whether a hit occurs in a list of hits.
fn contains_hit(v: &Vec<Hit>, h: &Hit) -> (r: bool)
    ensures
        r == v@.contains(*h),
{
    let mut i: usize = 0;
    while i < v.len()
        invariant
            i <= v@.len(),
            forall|m: int| 0 <= m < i ==> v@[m] != *h,
        decreases v@.len() - i,
    {
        if v[i].file_idx == h.file_idx && v[i].entry_idx == h.entry_idx {
            assert(v@[i as int] == *h);
            return true;
        }
        i = i + 1;
    }
    false
}

// ----- The index -----

impl Index {
    /// The FST behind the index is well-formed (reading one that is not may panic).
    pub closed spec fn fst_well_formed(self) -> bool {
        fst_set_well_formed(self.fst)
    }

    /// The keys the index holds.
    pub closed spec fn keys(self) -> Set<Seq<u8>> {
        fst_set_keys(self.fst)
    }

    /// The files of the manifest.
    pub closed spec fn files(self) -> Seq<FileEntry> {
        self.manifest.files@
    }

    /// Opens an index from the bytes of its FST and its manifest. Bytes that
    /// fail the FST header checks are an error. Well-formed FST bytes always
    /// open, and the index then holds their keys; bytes that pass the checks
    /// without being well-formed open too, to an index that is not
    /// well-formed. (The header's root address and key count must fit in a
    /// `usize`: `fst` panics otherwise.)
    pub fn open(fst_bytes: Vec<u8>, manifest: Manifest) -> (res: Result<Index, IndexError>)
        requires
            fst_fields_fit(fst_bytes@),
        ensures
            res is Ok <==> fst_header_ok(fst_bytes@),
            fst_bytes_keys(fst_bytes@) is Some ==> res is Ok,
            res matches Err(e) ==> e == IndexError::Fst,
            res matches Ok(index) ==> index.files() == manifest.files@,
            res matches Ok(index) ==> (fst_bytes_keys(fst_bytes@) matches Some(ks) ==> index.fst_well_formed()
                && index.keys() == ks),
    {
        match fst_set_from_bytes(fst_bytes) {
            Ok(fst) => Ok(Index { fst, manifest }),
            Err(_) => Err(IndexError::Fst),
        }
    }

    /// The keys of a word: those from `word, 0` up to `word, 1`, in
    /// increasing order (exactly the keys starting with `word, 0`).
    fn word_keys(&self, word: &[u8]) -> (res: (Vec<Vec<u8>>, usize))
        requires
            self.fst_well_formed(),
        ensures
            res.1 == word@.len() + 1,
            views(res.0@) == range_keys(self.keys(), word@.push(0u8), word@.push(1u8)),
            strictly_sorted::<Vec<u8>>(views(res.0@)),
            forall|k: Seq<u8>|
                #[trigger] view_set(res.0@).contains(k) <==> (self.keys().contains(k) && !bytes_lt(
                    k,
                    word@.push(0u8),
                ) && bytes_lt(k, word@.push(1u8))),
    {
        let mut prefix: Vec<u8> = Vec::new();
        let mut i: usize = 0;
        while i < word.len()
            invariant
                i <= word@.len(),
                prefix@ == word@.subrange(0, i as int),
            decreases word@.len() - i,
        {
            prefix.push(word[i]);
            i = i + 1;
            assert(prefix@ =~= word@.subrange(0, i as int));
        }
        assert(prefix@ =~= word@);
        let mut upper = prefix.clone();
        assert(upper@ =~= word@);
        prefix.push(0u8);
        upper.push(1u8);
        let keys = fst_keys_in_range(&self.fst, prefix.as_slice(), upper.as_slice());
        proof {
            let lo = word@.push(0u8);
            let hi = word@.push(1u8);
            let chosen = range_keys(self.keys(), lo, hi);
            let kv = views(keys@);
            assert(prefix@ == lo && upper@ == hi);
            assert forall|k: Seq<u8>|
                #[trigger] kv.to_set().contains(k) <==> (self.keys().contains(k) && !bytes_lt(
                    k,
                    lo,
                ) && bytes_lt(k, hi)) by {
                assert(view_set(keys@).contains(k) == kv.to_set().contains(k));
            }
            assert(strictly_sorted::<Vec<u8>>(kv) && forall|k: Seq<u8>|
                #[trigger] kv.to_set().contains(k) <==> (self.keys().contains(k) && !bytes_lt(
                    k,
                    lo,
                ) && bytes_lt(k, hi)));
            assert(chosen.to_set() =~= kv.to_set());
            lemma_sorted_unique::<Vec<u8>>(chosen, kv);
        }
        (keys, prefix.len())
    }

    /// The hits of one word, given by its UTF-8 bytes, sorted in hit order.
    fn word_hits_sorted(&self, word: &[u8]) -> (res: Vec<Hit>)
        requires
            self.fst_well_formed(),
        ensures
            strictly_sorted::<Hit>(views(res@)),
            view_set(res@) == word_hits(self.keys(), word@),
    {
        let (keys, plen) = self.word_keys(word);
        let ghost prefix = word@.push(0u8);
        let ghost upper = word@.push(1u8);
        let ghost ks = self.keys();
        let ghost w = word@;
        let mut hits: Vec<Hit> = Vec::new();
        let mut j: usize = 0;
        while j < keys.len()
            invariant
                j <= keys@.len(),
                plen == w.len() + 1,
                prefix == w.push(0u8),
                upper == w.push(1u8),
                w == word@,
                ks == self.keys(),
                forall|k: Seq<u8>|
                    #[trigger] view_set(keys@).contains(k) <==> (ks.contains(k) && !bytes_lt(
                        k,
                        prefix,
                    ) && bytes_lt(k, upper)),
                forall|h: Hit|
                    #[trigger] view_set(hits@).contains(h) <==> exists|m: int|
                        0 <= m < j && word_key(#[trigger] keys@[m]@, w) && key_hit(
                            keys@[m]@,
                            plen as int,
                        ) == h,
            decreases keys@.len() - j,
        {
            let kb = &keys[j];
            let ghost kv = kb@;
            proof {
                assert(views(keys@)[j as int] == kv);
                assert(view_set(keys@).contains(kv));
                lemma_prefix_range(w, kv);
            }
            if kb.len() < plen || kb.len() - plen < 8 {
                proof {
                    assert forall|h: Hit| #[trigger] view_set(hits@).contains(h) <==> exists|m: int|
                        0 <= m < j + 1 && word_key(#[trigger] keys@[m]@, w) && key_hit(
                            keys@[m]@,
                            plen as int,
                        ) == h by {
                        if exists|m: int|
                            0 <= m < j + 1 && word_key(#[trigger] keys@[m]@, w) && key_hit(
                                keys@[m]@,
                                plen as int,
                            ) == h {
                            let m = choose|m: int|
                                0 <= m < j + 1 && word_key(#[trigger] keys@[m]@, w) && key_hit(
                                    keys@[m]@,
                                    plen as int,
                                ) == h;
                            assert(m < j);
                        }
                    }
                }
                j = j + 1;
                continue ;
            }
            // The range's upper bound ends the stream at the first key
            // without the prefix, so every key here carries it.
            let fi = read_be_u32(kb[plen], kb[plen + 1], kb[plen + 2], kb[plen + 3]);
            let ei = read_be_u32(kb[plen + 4], kb[plen + 5], kb[plen + 6], kb[plen + 7]);
            let hit = Hit { file_idx: fi, entry_idx: ei };
            let ghost before = hits@;
            hits.push(hit);
            proof {
                assert(hit == key_hit(kv, plen as int));
                assert(word_key(kv, w));
                assert(views(hits@) =~= views(before).push(hit));
                assert forall|h: Hit| #[trigger] view_set(hits@).contains(h) <==> exists|m: int|
                    0 <= m < j + 1 && word_key(#[trigger] keys@[m]@, w) && key_hit(
                        keys@[m]@,
                        plen as int,
                    ) == h by {
                    if view_set(hits@).contains(h) {
                        let q = choose|q: int| 0 <= q < views(hits@).len() && views(hits@)[q] == h;
                        if q < before.len() {
                            assert(views(before)[q] == h);
                            assert(view_set(before).contains(h));
                        } else {
                            assert(keys@[j as int]@ == kv);
                        }
                    }
                    if exists|m: int|
                        0 <= m < j + 1 && word_key(#[trigger] keys@[m]@, w) && key_hit(
                            keys@[m]@,
                            plen as int,
                        ) == h {
                        let m = choose|m: int|
                            0 <= m < j + 1 && word_key(#[trigger] keys@[m]@, w) && key_hit(
                                keys@[m]@,
                                plen as int,
                            ) == h;
                        if m < j {
                            assert(view_set(before).contains(h));
                            let q = choose|q: int|
                                0 <= q < views(before).len() && views(before)[q] == h;
                            assert(views(hits@)[q] == h);
                        } else {
                            assert(views(hits@)[before.len() as int] == h);
                        }
                    }
                }
            }
            j = j + 1;
        }
        proof {
            assert forall|h: Hit| view_set(hits@).contains(h) <==> word_hits(ks, w).contains(h) by {
                if view_set(hits@).contains(h) {
                    let m = choose|m: int|
                        0 <= m < keys@.len() && word_key(#[trigger] keys@[m]@, w) && key_hit(
                            keys@[m]@,
                            plen as int,
                        ) == h;
                    assert(views(keys@)[m] == keys@[m]@);
                    assert(view_set(keys@).contains(keys@[m]@));
                    assert(ks.contains(keys@[m]@) && word_key(keys@[m]@, w) && key_hit(
                        keys@[m]@,
                        w.len() as int + 1,
                    ) == h);
                }
                if word_hits(ks, w).contains(h) {
                    let k = choose|k: Seq<u8>|
                        ks.contains(k) && word_key(k, w) && key_hit(k, w.len() as int + 1) == h;
                    lemma_prefix_range(w, k);
                    assert(view_set(keys@).contains(k));
                    let m = choose|m: int| 0 <= m < views(keys@).len() && views(keys@)[m] == k;
                    assert(keys@[m]@ == k);
                    assert(0 <= m < j && word_key(keys@[m]@, w) && key_hit(keys@[m]@, plen as int)
                        == h);
                }
            }
            assert(view_set(hits@) =~= word_hits(ks, w));
        }
        sort_unique(hits)
    }

    /// The distinct hits of one word, given by its UTF-8 bytes, in the order
    /// its keys first name them, read until there are more than `cap` of
    /// them; then sorted in hit order.
    fn word_hits_capped(&self, word: &[u8], cap: usize) -> (res: Vec<Hit>)
        requires
            self.fst_well_formed(),
        ensures
            strictly_sorted::<Hit>(views(res@)),
            view_set(res@) == word_hits_upto(self.keys(), word@, Some(cap)),
            word_hits_upto(self.keys(), word@, Some(cap)).subset_of(word_hits(self.keys(), word@)),
            word_hits(self.keys(), word@).finite(),
            word_hits(self.keys(), word@).len() <= cap ==> word_hits_upto(self.keys(), word@, Some(cap))
                == word_hits(self.keys(), word@),
    {
        let (keys, plen) = self.word_keys(word);
        let ghost ks = views(keys@);
        let ghost target = capped_from(ks, 0, seq![], plen as int, cap as int);
        proof {
            lemma_capped_from_within(ks, 0, seq![], plen as int, cap as int);
            assert forall|h: Hit| #[trigger] target.contains(h) implies word_hits(
                self.keys(),
                word@,
            ).contains(h) by {
                assert(!Seq::<Hit>::empty().contains(h));
                let m = choose|m: int|
                    0 <= m < ks.len() && ks[m].len() >= plen + 8 && key_hit(#[trigger] ks[m], plen as int)
                        == h;
                assert(view_set(keys@).contains(ks[m]));
                lemma_prefix_range(word@, ks[m]);
                assert(word_key(ks[m], word@));
            }
            let w = word_hits(self.keys(), word@);
            assert(hits_from(ks, 0, plen as int) =~= w) by {
                assert forall|h: Hit| #[trigger] hits_from(ks, 0, plen as int).contains(h) implies w.contains(h) by {
                    let m = choose|m: int|
                        0 <= m < ks.len() && ks[m].len() >= plen + 8 && key_hit(
                            #[trigger] ks[m],
                            plen as int,
                        ) == h;
                    assert(view_set(keys@).contains(ks[m]));
                    lemma_prefix_range(word@, ks[m]);
                    assert(word_key(ks[m], word@));
                }
                assert forall|h: Hit| #[trigger] w.contains(h) implies hits_from(ks, 0, plen as int).contains(h) by {
                    let k = choose|k: Seq<u8>|
                        self.keys().contains(k) && word_key(k, word@) && key_hit(k, word@.len() as int + 1)
                            == h;
                    lemma_prefix_range(word@, k);
                    assert(view_set(keys@).contains(k));
                    let m = choose|m: int| 0 <= m < ks.len() && ks[m] == k;
                    assert(key_hit(ks[m], plen as int) == h);
                }
            }
            let named = ks.map_values(|k: Seq<u8>| key_hit(k, plen as int));
            assert forall|h: Hit| #[trigger] w.contains(h) implies named.to_set().contains(h) by {
                assert(hits_from(ks, 0, plen as int).contains(h));
                let m = choose|m: int|
                    0 <= m < ks.len() && ks[m].len() >= plen + 8 && key_hit(#[trigger] ks[m], plen as int)
                        == h;
                assert(named[m] == h);
            }
            vstd::seq_lib::seq_to_set_is_finite(named);
            vstd::set_lib::lemma_len_subset(w, named.to_set());
            if w.len() <= cap {
                lemma_capped_from_full(ks, 0, seq![], plen as int, cap as int, w);
                assert(Seq::<Hit>::empty().to_set() =~= Set::<Hit>::empty());
                assert(target.to_set() =~= w);
            }
        }
        let mut acc: Vec<Hit> = Vec::new();
        let mut j: usize = 0;
        while j < keys.len()
            invariant
                j <= keys@.len(),
                ks == views(keys@),
                ks == range_keys(self.keys(), word@.push(0u8), word@.push(1u8)),
                plen == word@.len() + 1,
                target == capped_from(ks, 0, seq![], plen as int, cap as int),
                forall|h: Hit| #[trigger]
                    target.contains(h) ==> word_hits(self.keys(), word@).contains(h),
                word_hits(self.keys(), word@).finite(),
                word_hits(self.keys(), word@).len() <= cap ==> target.to_set() == word_hits(
                    self.keys(),
                    word@,
                ),
                acc@.len() <= cap,
                target == capped_from(ks, j as int, acc@, plen as int, cap as int),
            decreases keys@.len() - j,
        {
            let kb = &keys[j];
            proof {
                assert(ks[j as int] == kb@);
            }
            if kb.len() < plen || kb.len() - plen < 8 {
                j = j + 1;
                continue ;
            }
            let fi = read_be_u32(kb[plen], kb[plen + 1], kb[plen + 2], kb[plen + 3]);
            let ei = read_be_u32(kb[plen + 4], kb[plen + 5], kb[plen + 6], kb[plen + 7]);
            let hit = Hit { file_idx: fi, entry_idx: ei };
            assert(hit == key_hit(ks[j as int], plen as int));
            let ghost before = acc@;
            if !contains_hit(&acc, &hit) {
                acc.push(hit);
            }
            assert(acc@ == (if before.contains(hit) { before } else { before.push(hit) }));
            if acc.len() > cap {
                proof {
                    assert(capped_from(ks, j as int, before, plen as int, cap as int) == acc@);
                    assert(views(acc@) =~= acc@);
                }
                return sort_unique(acc);
            }
            j = j + 1;
        }
        proof {
            assert(views(acc@) =~= acc@);
        }
        sort_unique(acc)
    }

    /// The hits of one word limited as `limit` says, sorted in hit order.
    fn word_hits_limited(&self, word: &[u8], limit: Option<usize>) -> (res: Vec<Hit>)
        requires
            self.fst_well_formed(),
        ensures
            strictly_sorted::<Hit>(views(res@)),
            view_set(res@) == word_hits_upto(self.keys(), word@, limit),
            word_hits_upto(self.keys(), word@, limit).subset_of(word_hits(self.keys(), word@)),
            within_limit(word_hits(self.keys(), word@), limit) ==> word_hits_upto(
                self.keys(),
                word@,
                limit,
            ) == word_hits(self.keys(), word@),
    {
        match limit {
            None => self.word_hits_sorted(word),
            Some(cap) => self.word_hits_capped(word, cap),
        }
    }

    /// Searches the index. The query is split into tokens; each token finds
    /// the entries whose keys carry it. In AND mode (the default) a hit must
    /// be found by every token, in OR mode (`opts.any`) by at least one. The
    /// hits come ordered by file, last file first, then by entry, and at most
    /// `opts.max_results` of them.
    pub fn search(&self, query: &str, opts: &SearchOpts) -> (res: Result<Vec<Hit>, IndexError>)
        requires
            self.fst_well_formed(),
        ensures
            res matches Ok(hits) && is_search_result(
                query_hits(self.keys(), tokens(query@), opts.any),
                opts.max_results,
                hits@,
            ),
    {
        match self.search_upto(query, opts, None) {
            Ok((hits, _)) => Ok(hits),
            Err(e) => Err(e),
        }
    }

    /// Searches the index as `search` does, and also counts the hits of the
    /// query before they are cut to `opts.max_results`.
    pub fn search_with_total(&self, query: &str, opts: &SearchOpts) -> (res: Result<
        (Vec<Hit>, usize),
        IndexError,
    >)
        requires
            self.fst_well_formed(),
        ensures
            res matches Ok((hits, total)) && is_search_result(
                query_hits(self.keys(), tokens(query@), opts.any),
                opts.max_results,
                hits@,
            ) && total == query_hits(self.keys(), tokens(query@), opts.any).len(),
    {
        self.search_upto(query, opts, None)
    }

    /// A lossy variant of `search` that bounds the work per query word: it
    /// reads a word's keys only until it has found `cap + 1` distinct hits of
    /// it, and the word's later hits are lost, so an AND search can miss
    /// entries that have every word. Every hit it returns is a hit of the
    /// query, and when no query word has more than `cap` hits it returns what
    /// `search` returns.
    pub fn search_with_word_cap(&self, query: &str, opts: &SearchOpts, cap: usize) -> (res: Result<
        Vec<Hit>,
        IndexError,
    >)
        requires
            self.fst_well_formed(),
        ensures
            res matches Ok(hits) && is_search_result(
                query_hits_upto(self.keys(), tokens(query@), opts.any, Some(cap)),
                opts.max_results,
                hits@,
            ),
            res matches Ok(hits) ==> forall|j: int|
                0 <= j < hits@.len() ==> query_hits(self.keys(), tokens(query@), opts.any).contains(
                    #[trigger] hits@[j],
                ),
            res matches Ok(hits) ==> ((forall|m: int|
                0 <= m < tokens(query@).len() ==> word_hits(
                    self.keys(),
                    encode_utf8(#[trigger] tokens(query@)[m]),
                ).len() <= cap) ==> is_search_result(
                query_hits(self.keys(), tokens(query@), opts.any),
                opts.max_results,
                hits@,
            )),
    {
        match self.search_upto(query, opts, Some(cap)) {
            Ok((hits, _)) => Ok(hits),
            Err(e) => Err(e),
        }
    }

    /// The search for both: each word's hits limited as `limit` says.
    fn search_upto(&self, query: &str, opts: &SearchOpts, limit: Option<usize>) -> (res: Result<
        (Vec<Hit>, usize),
        IndexError,
    >)
        requires
            self.fst_well_formed(),
        ensures
            res matches Ok((hits, total)) && is_search_result(
                query_hits_upto(self.keys(), tokens(query@), opts.any, limit),
                opts.max_results,
                hits@,
            ),
            res matches Ok((hits, total)) ==> total == query_hits_upto(
                self.keys(),
                tokens(query@),
                opts.any,
                limit,
            ).len(),
            res matches Ok((hits, total)) ==> forall|j: int|
                0 <= j < hits@.len() ==> query_hits(self.keys(), tokens(query@), opts.any).contains(
                    #[trigger] hits@[j],
                ),
            res matches Ok((hits, total)) ==> ((forall|m: int|
                0 <= m < tokens(query@).len() ==> within_limit(
                    word_hits(self.keys(), encode_utf8(#[trigger] tokens(query@)[m])),
                    limit,
                )) ==> is_search_result(
                query_hits(self.keys(), tokens(query@), opts.any),
                opts.max_results,
                hits@,
            )),
    {
        let query_words = tokenize(query);
        let ghost words = tokens(query@);
        let ghost ks = self.keys();
        assert(string_views(query_words@) == words);
        if query_words.len() == 0 {
            proof {
                assert(query_hits_upto(ks, words, opts.any, limit) =~= Set::empty());
                assert(query_hits(ks, words, opts.any) =~= Set::empty());
            }
            return Ok((Vec::new(), 0));
        }
        let any = opts.any;
        let mut acc: Option<Vec<Hit>> = None;
        let mut i: usize = 0;
        while i < query_words.len()
            invariant
                i <= query_words@.len(),
                words.len() == query_words@.len(),
                forall|m: int| 0 <= m < words.len() ==> #[trigger] query_words@[m]@ == words[m],
                ks == self.keys(),
                self.fst_well_formed(),
                words == tokens(query@),
                any == opts.any,
                acc matches Some(a) ==> strictly_sorted::<Hit>(views(a@)) && view_set(a@)
                    == query_hits_upto(ks, words.take(i as int), any, limit),
                acc is None ==> query_hits_upto(ks, words.take(i as int), any, limit) == Set::<Hit>::empty(),
                !any ==> (acc is None <==> i == 0),
                forall|m: int|
                    0 <= m < i ==> word_hits_upto(ks, encode_utf8(#[trigger] words[m]), limit).subset_of(
                        word_hits(ks, encode_utf8(words[m])),
                    ),
                forall|m: int|
                    0 <= m < i ==> (within_limit(word_hits(ks, encode_utf8(#[trigger] words[m])), limit)
                        ==> word_hits_upto(ks, encode_utf8(words[m]), limit) == word_hits(
                        ks,
                        encode_utf8(words[m]),
                    )),
            decreases query_words@.len() - i,
        {
            assert(string_views(query_words@)[i as int] == words[i as int]);
            let wbytes = query_words[i].as_str().as_bytes();
            let hits = self.word_hits_limited(wbytes, limit);
            let ghost s = word_hits_upto(ks, encode_utf8(words[i as int]), limit);
            proof {
                let t = words.take(i + 1);
                assert(t.drop_last() =~= words.take(i as int));
                assert(t.last() == words[i as int]);
                if i == 0 {
                    assert(t =~= seq![words[0]]);
                }
            }
            if hits.len() == 0 {
                proof {
                    assert(view_set(hits@) =~= Set::<Hit>::empty());
                }
                if !any {
                    proof {
                        lemma_and_hits_within_word(ks, words, limit, i as int);
                        assert(query_hits_upto(ks, words, false, limit) =~= Set::<Hit>::empty());
                        if within_limit(word_hits(ks, encode_utf8(words[i as int])), limit) {
                            lemma_and_hits_within_word(ks, words, None, i as int);
                            assert(query_hits(ks, words, false) =~= Set::<Hit>::empty());
                        }
                    }
                    return Ok((Vec::new(), 0));
                }
                proof {
                    assert(query_hits_upto(ks, words.take(i + 1), any, limit) =~= query_hits_upto(
                        ks,
                        words.take(i as int),
                        any,
                        limit,
                    ).union(s)) by {
                        if i == 0 {
                            assert(words.take(0) =~= Seq::<Seq<char>>::empty());
                        }
                    }
                }
            } else {
                let next = match acc {
                    None => hits,
                    Some(a) => {
                        if any {
                            merge_union(a, hits)
                        } else {
                            merge_intersection(a, hits)
                        }
                    },
                };
                acc = Some(next);
                proof {
                    if i == 0 {
                        assert(words.take(0) =~= Seq::<Seq<char>>::empty());
                    }
                }
            }
            i = i + 1;
        }
        proof {
            assert(words.take(i as int) =~= words);
            lemma_limited_query_within(ks, words, any, limit);
            if forall|m: int|
                0 <= m < words.len() ==> within_limit(
                    word_hits(ks, encode_utf8(#[trigger] words[m])),
                    limit,
                ) {
                lemma_limited_query_equal(ks, words, any, limit);
            }
        }
        let mut all = match acc {
            None => {
                return Ok((Vec::new(), 0));
            },
            Some(a) => a,
        };
        let ghost full = all@;
        let total = all.len();
        proof {
            let v = views(full);
            assert(v =~= full);
            assert(v.no_duplicates()) by {
                assert forall|x: int, y: int| 0 <= x < v.len() && 0 <= y < v.len() && x != y implies v[x]
                    != v[y] by {
                    if x < y {
                        assert(Hit::precedes(v[x], v[y]));
                    } else {
                        assert(Hit::precedes(v[y], v[x]));
                    }
                }
            }
            v.unique_seq_to_set();
        }
        all.truncate(opts.max_results);
        proof {
            let r = all@;
            let q = query_hits_upto(ks, words, any, limit);
            assert(views(r) =~= r);
            assert(views(full) =~= full);
            assert forall|j: int| 0 <= j < r.len() implies q.contains(#[trigger] r[j]) by {
                assert(r[j] == full[j]);
                assert(view_set(full).contains(full[j]));
            }
            assert forall|h: Hit, j: int|
                #![trigger q.contains(h), r[j]]
                q.contains(h) && !r.contains(h) && 0 <= j < r.len() implies Hit::precedes(r[j], h) by {
                assert(view_set(full).contains(h));
                let m = choose|m: int| 0 <= m < views(full).len() && views(full)[m] == h;
                if m < r.len() {
                    assert(r[m] == h);
                }
                assert(r[j] == full[j]);
            }
            if r.len() < opts.max_results {
                assert(r =~= full);
                assert forall|h: Hit| #[trigger] q.contains(h) implies r.contains(h) by {
                    assert(view_set(full).contains(h));
                    let m = choose|m: int| 0 <= m < views(full).len() && views(full)[m] == h;
                    assert(r[m] == h);
                }
            }
        }
        Ok((all, total))
    }

    /// The manifest entry of the file a hit points to, if there is one.
    pub fn resolve(&self, hit: &Hit) -> (res: Option<&FileEntry>)
        ensures
            match res {
                Some(e) => (hit.file_idx as int) < self.files().len() && *e == self.files()[hit.file_idx as int],
                None => (hit.file_idx as int) >= self.files().len(),
            },
    {
        let i = hit.file_idx as usize;
        if i < self.manifest.files.len() {
            Some(&self.manifest.files[i])
        } else {
            None
        }
    }
}

} // verus!
