//! OpenAI-style tokenizer counting: regex pre-tokenization, then
//! byte-level BPE merging against a frozen rank map.
//!
//! The published o200k_base pattern splits the input into pieces (letter
//! runs with contraction suffixes, digit runs capped at three, punctuation
//! runs, whitespace runs); each piece starts as one part per byte and is
//! merged by rank with concatenation lookups.

use vstd::prelude::*;
use vstd::string::StringSliceAdditionalSpecFns;
use vstd::utf8::encode_utf8;

use crate::frozen::tbl_wf;
use crate::matcher::{CompiledRegex, match_pieces, match_pieces_from, regex_spans, sum_piece_lens, lemma_sum_lens_eq_total, lemma_sum_lens_suffix_le};
use crate::merge::{bpe_count_spec, bpe_merge_count, bpe_merge_spec, best_pair, merge_step, parts_total};

verus! {

/// The pre-tokenization pattern for the o200k_base encoding, from
/// tiktoken's published data.
pub const O200K_PAT: &'static str = "[^\\r\\n\\p{L}\\p{N}]?[\\p{Lu}\\p{Lt}\\p{Lm}\\p{Lo}\\p{M}]*[\\p{Ll}\\p{Lm}\\p{Lo}\\p{M}]+('s|'S|'t|'T|'re|'rE|'Re|'RE|'ve|'vE|'Ve|'VE|'m|'M|'ll|'lL|'Ll|'LL|'d|'D)?|[^\\r\\n\\p{L}\\p{N}]?[\\p{Lu}\\p{Lt}\\p{Lm}\\p{Lo}\\p{M}]+[\\p{Ll}\\p{Lm}\\p{Lo}\\p{M}]*('s|'S|'t|'T|'re|'rE|'Re|'RE|'ve|'vE|'Ve|'VE|'m|'M|'ll|'lL|'Ll|'LL|'d|'D)?|\\p{N}{1,3}| ?[^\\s\\p{L}\\p{N}]+[\\r\\n/]*|\\s*[\\r\\n]+|\\s+(?!\\S)|\\s+";

/// One part per byte: the starting state of byte-level BPE.
pub open spec fn singleton_parts(piece: Seq<u8>) -> Seq<Seq<u8>> {
    Seq::new(piece.len(), |i: int| piece.subrange(i, i + 1))
}

/// The token count of one piece: surviving parts after BPE merging with
/// concatenation lookups into the rank map `t`.
pub open spec fn tiktoken_piece_count(t: Seq<u8>, piece: Seq<u8>) -> int {
    bpe_count_spec(t, singleton_parts(piece), false)
}

/// Sum of the piece counts from index `k` on.
pub open spec fn sum_piece_counts(t: Seq<u8>, pieces: Seq<Seq<u8>>, k: int) -> int
    decreases pieces.len() - k,
{
    if k < 0 || k >= pieces.len() {
        0
    } else {
        tiktoken_piece_count(t, pieces[k]) + sum_piece_counts(t, pieces, k + 1)
    }
}

/// What the tiktoken counter returns: the regex pieces of the text, each
/// counted through BPE, summed.
pub open spec fn tiktoken_count_spec(t: Seq<u8>, pattern: Seq<char>, text: Seq<char>) -> int {
    if text.len() == 0 {
        0
    } else {
        sum_piece_counts(
            t,
            match_pieces_from(regex_spans(pattern, text), encode_utf8(text), 0),
            0,
        )
    }
}

/// Merging never increases the number of parts.
pub proof fn lemma_merge_le(t: Seq<u8>, parts: Seq<Seq<u8>>, sep: bool)
    ensures
        bpe_merge_spec(t, parts, sep).len() <= parts.len(),
    decreases parts.len(),
{
    if parts.len() >= 2 {
        match best_pair(t, parts, sep) {
            None => {},
            Some((r, i)) => {
                let j = if 0 <= i && i + 1 < parts.len() {
                    i
                } else {
                    0int
                };
                lemma_merge_le(t, merge_step(parts, j), sep);
            },
        }
    }
}

/// Each piece contributes between 0 and its byte length.
pub proof fn lemma_sum_counts_le_lens(t: Seq<u8>, pieces: Seq<Seq<u8>>, k: int)
    ensures
        0 <= sum_piece_counts(t, pieces, k),
        sum_piece_counts(t, pieces, k) <= sum_piece_lens(pieces, k),
        0 <= sum_piece_lens(pieces, k),
    decreases pieces.len() - k,
{
    if !(k < 0 || k >= pieces.len()) {
        lemma_merge_le(t, singleton_parts(pieces[k]), false);
        lemma_sum_counts_le_lens(t, pieces, k + 1);
    }
}

pub struct TiktokenTokenizer {
    pub regex: CompiledRegex,
    pub data: Vec<u8>,
}

impl TiktokenTokenizer {
    /// The rank map is a well-formed frozen map blob.
    pub open spec fn wf(self) -> bool {
        tbl_wf(self.data@, 18)
    }

    /// Compiles the o200k_base pattern over the given frozen rank map.
    /// Returns `None` exactly when the pattern fails to compile.
    pub fn new(data: Vec<u8>) -> (r: Option<TiktokenTokenizer>)
        requires
            tbl_wf(data@, 18),
        ensures
            r.is_some() == crate::matcher::regex_compiles(O200K_PAT@),
            r.is_some() ==> r.unwrap().wf() && r.unwrap().regex.pattern@ == O200K_PAT@
                && r.unwrap().data@ == data@,
    {
        match CompiledRegex::new(O200K_PAT) {
            Some(regex) => Some(TiktokenTokenizer { regex, data }),
            None => None,
        }
    }

    /// Counts the tokens of `text`: each regex piece runs through
    /// byte-level BPE, and the counts are summed.  Empty input counts 0.
    #[verifier::loop_isolation(false)]
    pub fn count_tokens(&self, text: &str) -> (r: usize)
        requires
            self.wf(),
            text.spec_bytes().len() + 1 <= usize::MAX,
        ensures
            r as int == tiktoken_count_spec(self.data@, self.regex.pattern@, text@),
            text@.len() == 0 ==> r == 0,
    {
        if text.is_empty() {
            return 0;
        }
        let ghost gpieces = match_pieces_from(
            regex_spans(self.regex.pattern@, text@),
            text.spec_bytes(),
            0,
        );
        let pieces = match_pieces(&self.regex, text);
        let text_len = text.as_bytes().len();
        proof {
            lemma_sum_counts_le_lens(self.data@, gpieces, 0);
            lemma_sum_lens_eq_total(gpieces, 0);
            assert(gpieces.skip(0) =~= gpieces);
        }
        let mut total: usize = 0;
        let mut k: usize = 0;
        while k < pieces.len()
            invariant
                k <= pieces@.len(),
                pieces@.map_values(|s: String| encode_utf8(s@)) == gpieces,
                total + sum_piece_counts(self.data@, gpieces, k as int) == sum_piece_counts(
                    self.data@,
                    gpieces,
                    0,
                ),
                total <= sum_piece_lens(gpieces, 0),
                sum_piece_lens(gpieces, 0) <= usize::MAX,
            decreases pieces@.len() - k,
        {
            proof {
                lemma_sum_counts_le_lens(self.data@, gpieces, k as int);
                lemma_sum_counts_le_lens(self.data@, gpieces, k as int + 1);
                lemma_sum_lens_drop(gpieces, k as int);
                lemma_sum_lens_suffix_le(gpieces, k as int);
            }
            let piece_bytes = pieces[k].as_str().as_bytes();
            let mut parts: Vec<Vec<u8>> = Vec::new();
            let mut i: usize = 0;
            while i < piece_bytes.len()
                invariant
                    i <= piece_bytes@.len(),
                    parts@.len() == i,
                    k < pieces@.len(),
                    piece_bytes@ == encode_utf8(pieces@[k as int]@),
                    forall|j: int|
                        0 <= j < i ==> (#[trigger] parts@[j])@ == piece_bytes@.subrange(j, j + 1),
                decreases piece_bytes@.len() - i,
            {
                let mut one: Vec<u8> = Vec::new();
                one.push(piece_bytes[i]);
                proof {
                    assert(one@ =~= piece_bytes@.subrange(i as int, i as int + 1));
                }
                parts.push(one);
                i += 1;
            }
            proof {
                assert(parts@.map_values(|p: Vec<u8>| p@) =~= singleton_parts(
                    gpieces[k as int],
                ));
                lemma_singleton_total(gpieces[k as int]);
            }
            let c = bpe_merge_count(self.data.as_slice(), parts, false);
            proof {
                lemma_merge_le(self.data@, singleton_parts(gpieces[k as int]), false);
            }
            total = total + c;
            k += 1;
        }
        total
    }
}

/// The piece-length sum shrinks by the head piece when stepping.
pub proof fn lemma_sum_lens_drop(pieces: Seq<Seq<u8>>, k: int)
    requires
        0 <= k < pieces.len(),
    ensures
        sum_piece_lens(pieces, k) == pieces[k].len() + sum_piece_lens(pieces, k + 1),
{
}

/// The singleton parts of a piece weigh exactly its byte length.
pub proof fn lemma_singleton_total(piece: Seq<u8>)
    ensures
        parts_total(singleton_parts(piece)) == piece.len(),
    decreases piece.len(),
{
    if piece.len() > 0 {
        lemma_singleton_total(piece.drop_last());
        assert(singleton_parts(piece).drop_last() =~~= singleton_parts(piece.drop_last()));
        assert(singleton_parts(piece).last() =~= piece.subrange(
            piece.len() - 1,
            piece.len() as int,
        ));
    }
}

} // verus!
