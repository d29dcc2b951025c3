//! Building an index: extracting the entries of every source file, making a
//! key for every token of every entry, and writing the keys into an FST.
use vstd::prelude::*;
use vstd::utf8::encode_utf8;
use crate::keys::{
    index_key, make_key, bytes_lt, lemma_bytes_lt_irreflexive, lemma_bytes_lt_transitive,
};
use crate::order::{
    StrictOrder, strictly_sorted, views, view_set, sort_unique, lemma_views_push, lemma_to_set_push,
};
use crate::fstset::{
    fst_bytes_keys, fst_builder_keys, fst_builder_new, fst_builder_insert, fst_builder_finish,
    fst_fields_fit,
};
use crate::tokenize::{tokenize, tokens, string_views};
use crate::extract::{
    ExtractorType, SourceFile, extract, extracted_entries, extracted_record, extractable,
};
use crate::index::{Index, IndexError, FileEntry, Manifest, EntryView};
use crate::transcript::opt_view;

verus! {

/// The entries each file yields under an extractor, file by file.
pub open spec fn all_entries(kind: ExtractorType, files: Seq<SourceFile>) -> Seq<Seq<Seq<char>>> {
    files.map_values(|f: SourceFile| extracted_entries(kind, opt_view(f.content)))
}

/// The manifest entries of the files under an extractor.
pub open spec fn all_records(kind: ExtractorType, files: Seq<SourceFile>) -> Seq<EntryView> {
    files.map_values(|f: SourceFile| extracted_record(kind, f.filename@, opt_view(f.content)))
}

/// Token `j` of entry `ei` of file `fi` exists.
pub open spec fn token_pos(entries: Seq<Seq<Seq<char>>>, fi: int, ei: int, j: int) -> bool {
    &&& 0 <= fi < entries.len()
    &&& 0 <= ei < entries[fi].len()
    &&& 0 <= j < tokens(entries[fi][ei]).len()
}

/// The key of token `j` of entry `ei` of file `fi`.
pub open spec fn token_key(entries: Seq<Seq<Seq<char>>>, fi: int, ei: int, j: int) -> Seq<u8> {
    index_key(encode_utf8(tokens(entries[fi][ei])[j]), fi as u32, ei as u32)
}

/// The keys of an index over the given entries: one for every token of every entry.
pub open spec fn index_keys(entries: Seq<Seq<Seq<char>>>) -> Set<Seq<u8>> {
    Set::new(
        |k: Seq<u8>|
            exists|fi: int, ei: int, j: int|
                token_pos(entries, fi, ei, j) && k == token_key(entries, fi, ei, j),
    )
}

/// `(a, b, c)` comes before `(x, y, z)`.
pub open spec fn pos_before(a: int, b: int, c: int, x: int, y: int, z: int) -> bool {
    a < x || (a == x && (b < y || (b == y && c < z)))
}

/// The keys of all tokens before position `(fi, ei, j)`.
pub open spec fn keys_before(entries: Seq<Seq<Seq<char>>>, fi: int, ei: int, j: int) -> Set<
    Seq<u8>,
> {
    Set::new(
        |k: Seq<u8>|
            exists|a: int, b: int, c: int|
                token_pos(entries, a, b, c) && pos_before(a, b, c, fi, ei, j) && k == token_key(
                    entries,
                    a,
                    b,
                    c,
                ),
    )
}

proof fn lemma_keys_step(entries: Seq<Seq<Seq<char>>>, fi: int, ei: int, j: int)
    requires
        token_pos(entries, fi, ei, j),
    ensures
        keys_before(entries, fi, ei, j + 1) == keys_before(entries, fi, ei, j).insert(
            token_key(entries, fi, ei, j),
        ),
{
    assert forall|k: Seq<u8>| #[trigger]
        keys_before(entries, fi, ei, j + 1).contains(k) <==> keys_before(
            entries,
            fi,
            ei,
            j,
        ).insert(token_key(entries, fi, ei, j)).contains(k) by {
        if keys_before(entries, fi, ei, j + 1).contains(k) {
            let (a, b, c) = choose|a: int, b: int, c: int|
                token_pos(entries, a, b, c) && pos_before(a, b, c, fi, ei, j + 1) && k
                    == token_key(entries, a, b, c);
            if !(a == fi && b == ei && c == j) {
                assert(pos_before(a, b, c, fi, ei, j));
            }
        }
        if keys_before(entries, fi, ei, j).contains(k) {
            let (a, b, c) = choose|a: int, b: int, c: int|
                token_pos(entries, a, b, c) && pos_before(a, b, c, fi, ei, j) && k == token_key(
                    entries,
                    a,
                    b,
                    c,
                );
            assert(pos_before(a, b, c, fi, ei, j + 1));
        }
    }
    assert(keys_before(entries, fi, ei, j + 1) =~= keys_before(entries, fi, ei, j).insert(
        token_key(entries, fi, ei, j),
    ));
}

proof fn lemma_keys_next_entry(entries: Seq<Seq<Seq<char>>>, fi: int, ei: int)
    requires
        0 <= fi < entries.len(),
        0 <= ei < entries[fi].len(),
    ensures
        keys_before(entries, fi, ei, tokens(entries[fi][ei]).len() as int) == keys_before(
            entries,
            fi,
            ei + 1,
            0,
        ),
{
    let n = tokens(entries[fi][ei]).len() as int;
    assert forall|k: Seq<u8>| #[trigger]
        keys_before(entries, fi, ei, n).contains(k) <==> keys_before(
            entries,
            fi,
            ei + 1,
            0,
        ).contains(k) by {
        if keys_before(entries, fi, ei + 1, 0).contains(k) {
            let (a, b, c) = choose|a: int, b: int, c: int|
                token_pos(entries, a, b, c) && pos_before(a, b, c, fi, ei + 1, 0) && k
                    == token_key(entries, a, b, c);
            assert(pos_before(a, b, c, fi, ei, n));
        }
        if keys_before(entries, fi, ei, n).contains(k) {
            let (a, b, c) = choose|a: int, b: int, c: int|
                token_pos(entries, a, b, c) && pos_before(a, b, c, fi, ei, n) && k == token_key(
                    entries,
                    a,
                    b,
                    c,
                );
            assert(pos_before(a, b, c, fi, ei + 1, 0));
        }
    }
    assert(keys_before(entries, fi, ei, n) =~= keys_before(entries, fi, ei + 1, 0));
}

proof fn lemma_keys_next_file(entries: Seq<Seq<Seq<char>>>, fi: int)
    requires
        0 <= fi < entries.len(),
    ensures
        keys_before(entries, fi, entries[fi].len() as int, 0) == keys_before(
            entries,
            fi + 1,
            0,
            0,
        ),
{
    let n = entries[fi].len() as int;
    assert forall|k: Seq<u8>| #[trigger]
        keys_before(entries, fi, n, 0).contains(k) <==> keys_before(
            entries,
            fi + 1,
            0,
            0,
        ).contains(k) by {
        if keys_before(entries, fi + 1, 0, 0).contains(k) {
            let (a, b, c) = choose|a: int, b: int, c: int|
                token_pos(entries, a, b, c) && pos_before(a, b, c, fi + 1, 0, 0) && k
                    == token_key(entries, a, b, c);
            assert(pos_before(a, b, c, fi, n, 0));
        }
        if keys_before(entries, fi, n, 0).contains(k) {
            let (a, b, c) = choose|a: int, b: int, c: int|
                token_pos(entries, a, b, c) && pos_before(a, b, c, fi, n, 0) && k == token_key(
                    entries,
                    a,
                    b,
                    c,
                );
            assert(pos_before(a, b, c, fi + 1, 0, 0));
        }
    }
    assert(keys_before(entries, fi, n, 0) =~= keys_before(entries, fi + 1, 0, 0));
}

proof fn lemma_keys_ends(entries: Seq<Seq<Seq<char>>>)
    ensures
        keys_before(entries, 0, 0, 0) == Set::<Seq<u8>>::empty(),
        keys_before(entries, entries.len() as int, 0, 0) == index_keys(entries),
{
    assert(keys_before(entries, 0, 0, 0) =~= Set::<Seq<u8>>::empty());
    let n = entries.len() as int;
    assert forall|k: Seq<u8>| #[trigger]
        keys_before(entries, n, 0, 0).contains(k) <==> index_keys(entries).contains(k) by {
        if index_keys(entries).contains(k) {
            let (a, b, c) = choose|a: int, b: int, c: int|
                token_pos(entries, a, b, c) && k == token_key(entries, a, b, c);
            assert(pos_before(a, b, c, n, 0, 0));
        }
    }
    assert(keys_before(entries, n, 0, 0) =~= index_keys(entries));
}

/// A built index: the bytes of its FST, its manifest, how many keys it holds
/// and how many entries each file gave.
pub struct BuiltIndex {
    fst_bytes: Vec<u8>,
    manifest: Manifest,
    key_count: usize,
    entry_counts: Vec<usize>,
}

impl BuiltIndex {
    #[verifier::type_invariant]
    spec fn well_formed(self) -> bool {
        &&& fst_bytes_keys(self.fst_bytes@) is Some
        &&& fst_fields_fit(self.fst_bytes@)
    }

    /// The keys the built FST holds.
    pub closed spec fn keys(self) -> Set<Seq<u8>> {
        fst_bytes_keys(self.fst_bytes@).unwrap()
    }

    /// The manifest entries.
    pub closed spec fn manifest_files(self) -> Seq<FileEntry> {
        self.manifest.files@
    }

    /// The number of distinct keys recorded.
    pub closed spec fn spec_key_count(self) -> usize {
        self.key_count
    }

    /// The entries each file gave, counted.
    pub closed spec fn spec_entry_counts(self) -> Seq<usize> {
        self.entry_counts@
    }

    /// The bytes of the FST.
    pub fn fst_bytes(&self) -> (res: &Vec<u8>)
        ensures
            fst_bytes_keys(res@) == Some(self.keys()),
    {
        proof {
            use_type_invariant(self);
        }
        &self.fst_bytes
    }

    /// The manifest entries, in file order.
    pub fn files(&self) -> (res: &Vec<FileEntry>)
        ensures
            res@ == self.manifest_files(),
    {
        &self.manifest.files
    }

    /// The number of distinct keys.
    pub fn key_count(&self) -> (res: usize)
        ensures
            res == self.spec_key_count(),
    {
        self.key_count
    }

    /// The number of entries each file gave.
    pub fn entry_counts(&self) -> (res: &Vec<usize>)
        ensures
            res@ == self.spec_entry_counts(),
    {
        &self.entry_counts
    }

    /// Opens the built index for searching.
    pub fn into_index(self) -> (res: Index)
        ensures
            res.fst_well_formed(),
            res.keys() == self.keys(),
            res.files() == self.manifest_files(),
    {
        proof {
            use_type_invariant(&self);
        }
        let opened = Index::open(self.fst_bytes, self.manifest);
        opened.unwrap()
    }
}


impl Index {
    /// Builds an index over source files with one extractor: every token of
    /// every entry of every file gets the key `token, 0, file number, entry
    /// number`, and the keys go into an FST; the manifest lists the files in
    /// order. (Fewer than 2^32 files, and fewer than 2^32 entries in a file:
    /// their numbers are 32 bits.)
    pub fn build(files: &Vec<SourceFile>, extractor: &ExtractorType) -> (res: Result<
        BuiltIndex,
        IndexError,
    >)
        requires
            files@.len() <= 0x1_0000_0000,
            forall|i: int|
                0 <= i < files@.len() ==> extractable(*extractor, opt_view(#[trigger] files@[i].content)),
            forall|i: int|
                0 <= i < files@.len() ==> extracted_entries(
                    *extractor,
                    opt_view(#[trigger] files@[i].content),
                ).len() <= 0x1_0000_0000,
        ensures
            res matches Ok(b) && {
                &&& b.keys() == index_keys(all_entries(*extractor, files@))
                &&& b.manifest_files().map_values(|e: FileEntry| e@) == all_records(
                    *extractor,
                    files@,
                )
                &&& b.spec_key_count() == b.keys().len()
                &&& b.spec_entry_counts() == all_entries(*extractor, files@).map_values(
                    |e: Seq<Seq<char>>| e.len() as usize,
                )
            },
    {
        let kind = *extractor;
        let ghost entries = all_entries(kind, files@);
        let ghost records_spec = all_records(kind, files@);
        let mut keys: Vec<Vec<u8>> = Vec::new();
        let mut records: Vec<FileEntry> = Vec::new();
        let mut counts: Vec<usize> = Vec::new();
        proof {
            lemma_keys_ends(entries);
            assert(view_set(keys@) =~= Set::<Seq<u8>>::empty());
        }
        let mut fi: usize = 0;
        while fi < files.len()
            invariant
                fi <= files@.len(),
                files@.len() <= 0x1_0000_0000,
                kind == *extractor,
                entries == all_entries(kind, files@),
                records_spec == all_records(kind, files@),
                forall|i: int|
                    0 <= i < files@.len() ==> extractable(kind, opt_view(#[trigger] files@[i].content)),
                forall|i: int|
                    0 <= i < files@.len() ==> extracted_entries(
                        kind,
                        opt_view(#[trigger] files@[i].content),
                    ).len() <= 0x1_0000_0000,
                view_set(keys@) == keys_before(entries, fi as int, 0, 0),
                records@.map_values(|e: FileEntry| e@) == records_spec.take(fi as int),
                counts@ == entries.take(fi as int).map_values(|e: Seq<Seq<char>>| e.len() as usize),
            decreases files@.len() - fi,
        {
            let (entry, texts) = extract(kind, &files[fi]);
            let ghost ents = entries[fi as int];
            assert(entries.len() == files@.len());
            assert(string_views(texts@) == ents);
            let mut ei: usize = 0;
            while ei < texts.len()
                invariant
                    fi < files@.len(),
                    files@.len() <= 0x1_0000_0000,
                    entries.len() == files@.len(),
                    ei <= texts@.len(),
                    texts@.len() <= 0x1_0000_0000,
                    ents == entries[fi as int],
                    string_views(texts@) == ents,
                    view_set(keys@) == keys_before(entries, fi as int, ei as int, 0),
                decreases texts@.len() - ei,
            {
                assert(string_views(texts@)[ei as int] == texts@[ei as int]@);
                let words = tokenize(texts[ei].as_str());
                let ghost toks = tokens(ents[ei as int]);
                let mut j: usize = 0;
                while j < words.len()
                    invariant
                        fi < files@.len(),
                        files@.len() <= 0x1_0000_0000,
                        entries.len() == files@.len(),
                        ei < texts@.len(),
                        texts@.len() <= 0x1_0000_0000,
                        ents == entries[fi as int],
                        ents.len() == texts@.len(),
                        toks == tokens(entries[fi as int][ei as int]),
                        string_views(words@) == toks,
                        j <= words@.len(),
                        view_set(keys@) == keys_before(entries, fi as int, ei as int, j as int),
                    decreases words@.len() - j,
                {
                    assert(string_views(words@)[j as int] == words@[j as int]@);
                    let k = make_key(words[j].as_str().as_bytes(), fi as u32, ei as u32);
                    proof {
                        assert(toks[j as int] == words@[j as int]@);
                        assert(token_pos(entries, fi as int, ei as int, j as int));
                        assert(k@ == token_key(entries, fi as int, ei as int, j as int));
                        lemma_keys_step(entries, fi as int, ei as int, j as int);
                        lemma_views_push(keys@, k);
                        lemma_to_set_push(views(keys@), k@);
                    }
                    keys.push(k);
                    j = j + 1;
                }
                proof {
                    lemma_keys_next_entry(entries, fi as int, ei as int);
                }
                ei = ei + 1;
            }
            proof {
                lemma_keys_next_file(entries, fi as int);
            }
            let ghost before_records = records@;
            let ghost before_counts = counts@;
            records.push(entry);
            counts.push(texts.len());
            proof {
                assert(records_spec[fi as int] == entry@);
                assert(records@ == before_records.push(entry));
                assert(records@.map_values(|e: FileEntry| e@) =~= before_records.map_values(
                    |e: FileEntry| e@,
                ).push(entry@));
                assert(records_spec.take(fi + 1) =~= records_spec.take(fi as int).push(
                    records_spec[fi as int],
                ));
                assert(records@.map_values(|e: FileEntry| e@) =~= records_spec.take(fi + 1));
                assert(counts@ =~= entries.take(fi + 1).map_values(
                    |e: Seq<Seq<char>>| e.len() as usize,
                ));
            }
            fi = fi + 1;
        }
        proof {
            assert(records_spec.take(fi as int) =~= records_spec);
            assert(entries.take(fi as int) =~= entries);
        }
        let sorted = sort_unique(keys);
        let mut builder = fst_builder_new();
        let mut i: usize = 0;
        proof {
            assert(view_set(sorted@.take(0)) =~= Set::<Seq<u8>>::empty());
        }
        while i < sorted.len()
            invariant
                i <= sorted@.len(),
                strictly_sorted::<Vec<u8>>(views(sorted@)),
                fst_builder_keys(builder) == view_set(sorted@.take(i as int)),
            decreases sorted@.len() - i,
        {
            proof {
                // The keys go in increasing order: none held follows this one.
                let v = views(sorted@);
                assert forall|k: Seq<u8>| #[trigger] fst_builder_keys(builder).contains(k) implies !bytes_lt(
                    sorted@[i as int]@,
                    k,
                ) by {
                    let m = choose|m: int|
                        0 <= m < views(sorted@.take(i as int)).len() && views(sorted@.take(i as int))[m]
                            == k;
                    assert(views(sorted@.take(i as int))[m] == sorted@[m]@);
                    assert(v[m] == k && v[i as int] == sorted@[i as int]@);
                    assert(0 <= m < i);
                    assert(<Vec<u8> as StrictOrder>::precedes(v[m], v[i as int]));
                    assert(bytes_lt(k, sorted@[i as int]@));
                    if bytes_lt(sorted@[i as int]@, k) {
                        lemma_bytes_lt_transitive(k, sorted@[i as int]@, k);
                        lemma_bytes_lt_irreflexive(k);
                    }
                }
            }
            match fst_builder_insert(&mut builder, sorted[i].as_slice()) {
                Ok(()) => {},
                Err(_) => {
                    return Err(IndexError::Fst);
                },
            }
            proof {
                assert(sorted@.take(i + 1) =~= sorted@.take(i as int).push(sorted@[i as int]));
                lemma_views_push(sorted@.take(i as int), sorted@[i as int]);
                lemma_to_set_push(views(sorted@.take(i as int)), sorted@[i as int]@);
            }
            i = i + 1;
        }
        proof {
            assert(sorted@.take(i as int) =~= sorted@);
        }
        let bytes = match fst_builder_finish(builder) {
            Ok(b) => b,
            Err(_) => {
                return Err(IndexError::Fst);
            },
        };
        proof {
            let v = views(sorted@);
            assert(v.no_duplicates()) by {
                assert forall|a: int, b: int| 0 <= a < v.len() && 0 <= b < v.len() && a != b implies v[a]
                    != v[b] by {
                    if a < b {
                        assert(<Vec<u8> as StrictOrder>::precedes(v[a], v[b]));
                        assert(bytes_lt(v[a], v[b]));
                        lemma_bytes_lt_irreflexive(v[a]);
                    } else {
                        assert(<Vec<u8> as StrictOrder>::precedes(v[b], v[a]));
                        assert(bytes_lt(v[b], v[a]));
                        lemma_bytes_lt_irreflexive(v[b]);
                    }
                }
            }
            v.unique_seq_to_set();
        }
        Ok(
            BuiltIndex {
                fst_bytes: bytes,
                manifest: Manifest { files: records },
                key_count: sorted.len(),
                entry_counts: counts,
            },
        )
    }
}
} // verus!
