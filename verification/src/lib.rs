//! A full-text indexer over finite state transducers: text is split into
//! entries by an extractor, entries into lowercase tokens, and each token
//! occurrence becomes the key `token, 0, file number, entry number` of an FST
//! set. A search tokenizes the query, reads the keys of each token by prefix,
//! and combines the hits of the tokens (all of them, or any of them).
#![allow(unused_imports)]

pub mod text;
pub mod order;
pub mod keys;
pub mod tokenize;
pub mod date;
pub mod fstset;
pub mod index;
pub mod transcript;
pub mod extract;
pub mod indexing;
pub mod select;
pub mod laws;
pub mod source_laws;

pub use index::{Index, Hit, SearchOpts, FileEntry, Manifest, IndexError};
pub use tokenize::tokenize;
pub use date::{is_date_prefix, date_from_path, date_from_file_name};
pub use transcript::{parse_transcript, can_parse_transcript, TranscriptData, Turn};
pub use extract::{ExtractorType, SourceFile, extract, extract_txt, extract_jsonl, extract_transcript};
pub use indexing::BuiltIndex;
pub use select::FilePattern;
pub use fstset::fst_header_fits;

