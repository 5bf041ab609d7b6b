//! Properties of the counters that hold across all inputs, stated and
//! proved once, on top of the functions' own contracts.

use vstd::prelude::*;

use crate::bpe::{bpe_count_spec_of_chunk, chunk_count_spec, initial_tokens_spec, HfTokenizer};
use crate::claude::DATrie;
use crate::tiktoken::tiktoken_count_spec;

verus! {

/// A one-byte input always counts as exactly one token in the trie
/// segmenter: the greedy step consumes at least one and at most one byte.
pub proof fn lemma_trie_one_byte(t: DATrie, bytes: Seq<u8>)
    requires
        bytes.len() == 1,
    ensures
        t.count_spec(bytes, 0) == 1,
{
    t.lemma_match_len_bounds(bytes, 0);
    assert(t.count_spec(bytes, 1) == 0);
}

/// The trie count is never negative and never exceeds the byte length:
/// every emitted token consumes at least one input byte.
pub proof fn lemma_trie_count_bounded(t: DATrie, bytes: Seq<u8>)
    ensures
        0 <= t.count_spec(bytes, 0),
        t.count_spec(bytes, 0) <= bytes.len(),
{
    t.lemma_count_le_len(bytes, 0);
}

/// The trie count is a pure function of the trie tables and the input:
/// `count_spec` mentions nothing else, so equal inputs give equal counts.
pub proof fn lemma_trie_deterministic(t: DATrie, a: Seq<u8>, b: Seq<u8>)
    requires
        a == b,
    ensures
        t.count_spec(a, 0) == t.count_spec(b, 0),
{
}

/// The tiktoken count is a pure function of the rank blob, the pattern,
/// and the input characters.
pub proof fn lemma_tiktoken_deterministic(
    data: Seq<u8>,
    pattern: Seq<char>,
    a: Seq<char>,
    b: Seq<char>,
)
    requires
        a == b,
    ensures
        tiktoken_count_spec(data, pattern, a) == tiktoken_count_spec(data, pattern, b),
{
}

/// The HF count is a pure function of the tokenizer state and the input.
pub proof fn lemma_hf_deterministic(tok: HfTokenizer, a: Seq<char>, b: Seq<char>)
    requires
        a == b,
    ensures
        tok.hf_count_spec(a) == tok.hf_count_spec(b),
{
}

/// A chunk whose initial token list has at most 512 tokens never takes
/// the windowed long-chunk path: its count is the plain merge count.
pub proof fn lemma_short_chunk_direct(
    merges: Seq<u8>,
    left: Seq<u8>,
    right: Seq<u8>,
    cps: Seq<u32>,
    bf: bool,
    chunk: Seq<char>,
)
    requires
        initial_tokens_spec(cps, bf, chunk, 0).len() > 1,
        initial_tokens_spec(cps, bf, chunk, 0).len() <= 512,
    ensures
        chunk_count_spec(merges, left, right, cps, bf, chunk) == bpe_count_spec_of_chunk(
            merges,
            cps,
            bf,
            chunk,
        ),
{
}

} // verus!

verus! {

/// Serializing a trie and loading the blob restores the trie exactly:
/// the hypotheses are precisely what `trie_to_blob` guarantees of the
/// blob and what `DATrie::new` guarantees of the reloaded trie.
pub proof fn lemma_trie_blob_round_trip(t: DATrie, blob: Seq<u8>, t2: DATrie)
    requires
        t.wf(),
        blob.len() == 8 + 8 * t.base@.len(),
        crate::frozen::le32(blob, 0) == t.base@.len(),
        crate::frozen::le32(blob, 4) == t.root,
        forall|i: int|
            0 <= i < t.base@.len() ==> crate::frozen::le32(blob, 8 + 4 * i) == t.base@[i]
                && crate::frozen::le32(blob, 8 + 4 * (t.base@.len() + i)) == t.check@[i],
        t2.root == crate::frozen::le32(blob, 4),
        t2.base@.len() == crate::frozen::le32(blob, 0),
        t2.check@.len() == t2.base@.len(),
        forall|i: int|
            0 <= i < crate::frozen::le32(blob, 0) ==> t2.base@[i] == crate::frozen::le32(
                blob,
                8 + 4 * i,
            ) && t2.check@[i] == crate::frozen::le32(
                blob,
                8 + 4 * (crate::frozen::le32(blob, 0) + i),
            ),
    ensures
        t2.base@ == t.base@,
        t2.check@ == t.check@,
        t2.root == t.root,
{
    assert(t2.base@ =~= t.base@);
    assert(t2.check@ =~= t.check@);
}

} // verus!

verus! {

/// Walking to a terminal yields a full-length greedy scan result.
proof fn lemma_walk_scan_full(t: DATrie, token: Seq<u8>, i: int, cur: int, best: int)
    requires
        0 <= i < token.len(),
        t.walk_accepts(token, i, cur),
    ensures
        t.scan_spec(token, 0, i, cur, best) >= token.len(),
    decreases token.len() - i,
{
    match t.tr_spec(cur, token[i]) {
        None => {},
        Some((nxt, term)) => {
            if i == token.len() - 1 {
                assert(t.scan_spec(token, 0, i + 1, nxt, i + 1) == i + 1);
            } else {
                lemma_walk_scan_full(
                    t,
                    token,
                    i + 1,
                    nxt,
                    if term {
                        i + 1
                    } else {
                        best
                    },
                );
            }
        },
    }
}

/// An input that the trie accepts as one whole vocabulary token counts
/// as exactly one token: the greedy longest match takes all of it.
pub proof fn lemma_accepted_token_counts_one(t: DATrie, token: Seq<u8>)
    requires
        token.len() >= 1,
        t.walk_accepts(token, 0, t.root as int),
    ensures
        t.count_spec(token, 0) == 1,
{
    t.lemma_match_len_bounds(token, 0);
    match t.tr_spec(t.root as int, token[0]) {
        None => {
            assert(false);
        },
        Some((first, first_term)) => {
            let b0: int = if first_term {
                1int
            } else {
                0int
            };
            if token.len() == 1 {
                assert(first_term);
                assert(t.scan_spec(token, 0, 1, first, 1) == 1);
            } else {
                lemma_walk_scan_full(t, token, 1, first, b0);
                t.lemma_scan_bounds(token, 0, 1, first, b0);
            }
            assert(t.match_len_spec(token, 0) == token.len());
            assert(t.count_spec(token, token.len() as int) == 0);
        },
    }
}

} // verus!

verus! {

/// When the scan finds no breakable boundary at all, the windowed path
/// degenerates to one single-window merge: the two paths agree exactly.
///
/// The general claim of the design — that a window cut at a breakable
/// boundary can never change the merge outcome — does not hold of every
/// merges table: a merge whose left side is itself a merged pair can
/// cross a boundary whose raw left token is outside the left-side set.
/// The windowed count is therefore specified exactly as computed
/// (`chunked_from`), and its agreement with the single-window count on
/// realistic tables is exercised by tests.
pub proof fn lemma_no_cut_single_window(
    merges: Seq<u8>,
    left: Seq<u8>,
    right: Seq<u8>,
    tokens: Seq<Seq<u8>>,
    i: int,
)
    requires
        0 <= i,
        crate::bpe::find_cut(left, right, tokens, i, if i + 256 <= tokens.len() {
            i + 256
        } else {
            tokens.len() as int
        }).is_none(),
    ensures
        crate::bpe::chunked_from(merges, left, right, tokens, 0, i) == crate::merge::bpe_count_spec(
            merges,
            tokens,
            true,
        ),
{
    assert(tokens.skip(0) =~= tokens);
}

} // verus!
