//! Token-counting engines for a family of large-language-model tokenizers.
//!
//! The crate counts how many tokens a tokenizer would emit for a UTF-8
//! input string, without producing token identifiers.  Three counters are
//! provided: a double-array-trie longest-match segmenter, a regex
//! pre-tokenized byte-pair-encoding counter, and a configurable
//! normalizer / pre-tokenizer / BPE pipeline driven by a frozen tokenizer
//! description.  All three share one compact read-only lookup table, the
//! frozen hash table, and an offline builder that materializes every
//! read-only blob.

pub mod bpe;
pub mod builder;
pub mod byte_level;
pub mod claude;
pub mod frozen;
pub mod laws;
pub mod matcher;
pub mod merge;
pub mod tiktoken;
