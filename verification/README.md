# fst_indexer

A full-text indexer over FST sets, verified with Verus. Source files are split
into entries by an extractor (text lines, JSONL lines, transcript turns),
entries into lowercase tokens, and every token occurrence becomes the key
`token, 0, file number, entry number` of an `fst` set. A search reads the keys
of each query token by prefix and combines the hits of the tokens: all of them
(AND) or any of them (OR).

A token is a run of letters, digits, `_` and `-`, lowercased, kept when its
UTF-8 form is 2 to 100 bytes long (the length `str::len` gives, not a count
of characters). A search reports its hits, last file first, cut to the
requested number, and how many hits there were before the cut.

## Layout

- `src/` — the library, proved by Verus:
  - `text.rs`, `tokenize.rs`, `date.rs`: characters, lines, trimming, tokens,
    dates in file names;
  - `transcript.rs`, `extract.rs`: the transcript parser and the extractors;
  - `keys.rs`, `order.rs`: key layout and byte order, sorted sets as vectors;
  - `fstset.rs`, `select.rs`: the calls into `fst` and `glob`, with their
    contracts;
  - `indexing.rs`, `index.rs`: building an index, opening one, searching it;
  - `laws.rs`: properties of the library as a whole (what a search of a built
    index finds, results and their prefixes, tokens of joined and of ASCII
    text, the turns of a transcript, dates in file names).
- `tests/` — tests of the library.
- `app/` — the `fst-indexer` command line: reading and writing files, the
  manifest as JSON, and printing search results.
