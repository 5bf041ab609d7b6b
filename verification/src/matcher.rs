//! Compiled regular expressions, their match spans, and the two ways the
//! counters cut a text along those spans.
//!
//! The regex engine is outside code; everything it reports is reduced to
//! one list of byte-offset match spans per (pattern, text) pair.  The
//! splitting itself — matched pieces only, or the isolated alternation of
//! gaps and matches — is ordinary verified code over those spans.

use vstd::prelude::*;
use vstd::string::StrSliceExecFns;
use vstd::string::StringSliceAdditionalSpecFns;
use vstd::utf8::{
    encode_utf8, valid_utf8, is_char_boundary, encode_utf8_valid_utf8, valid_utf8_split,
    is_char_boundary_start_end_of_seq, is_char_boundary_iff_not_is_continuation_byte,
};

verus! {

#[verifier::external_type_specification]
#[verifier::external_body]
pub struct ExRegex(fancy_regex::Regex);

/// Whether fancy_regex accepts the pattern: compilation is a function of
/// the pattern text alone.
pub uninterp spec fn regex_compiles(pattern: Seq<char>) -> bool;

/// The successive non-overlapping match spans (byte offsets into the
/// UTF-8 form of `text`) that the compiled form of `pattern` yields on
/// `text`.  A function of the pattern and the text alone.
pub uninterp spec fn regex_spans(pattern: Seq<char>, text: Seq<char>) -> Seq<(int, int)>;

/// A compiled regex together with the pattern it was compiled from.
pub struct CompiledRegex {
    pub re: fancy_regex::Regex,
    pub pattern: String,
}

impl CompiledRegex {
    /// Relies on fancy_regex::Regex::new: compiles the pattern, reporting
    /// a syntax error (`None` here) exactly for the patterns the engine
    /// rejects — a deterministic function of the pattern text.
    #[verifier::external_body]
    pub(crate) fn new(pattern: &str) -> (r: Option<CompiledRegex>)
        ensures
            r.is_some() == regex_compiles(pattern@),
            r.is_some() ==> r.unwrap().pattern@ == pattern@,
    {
        match fancy_regex::Regex::new(pattern) {
            Ok(re) => Some(CompiledRegex { re, pattern: pattern.to_owned() }),
            Err(_) => None,
        }
    }

    /// Relies on fancy_regex::Regex::find_iter and Match::{start, end}:
    /// yields successive non-overlapping matches in input order, whose
    /// byte offsets lie on UTF-8 character boundaries of `text`; items
    /// that report a runtime error are skipped.  For a fixed pattern the
    /// resulting span list depends on the text alone.
    #[verifier::external_body]
    pub(crate) fn find_spans(&self, text: &str) -> (r: Vec<(usize, usize)>)
        ensures
            r@.map_values(|p: (usize, usize)| (p.0 as int, p.1 as int)) == regex_spans(
                self.pattern@,
                text@,
            ),
            forall|i: int|
                0 <= i < r@.len() ==> {
                    &&& (#[trigger] r@[i]).0 <= r@[i].1
                    &&& r@[i].1 <= text.spec_bytes().len()
                    &&& is_char_boundary(text.spec_bytes(), r@[i].0 as int)
                    &&& is_char_boundary(text.spec_bytes(), r@[i].1 as int)
                    &&& (0 < i ==> r@[i - 1].1 <= r@[i].0)
                },
    {
        let mut out: Vec<(usize, usize)> = Vec::new();
        for m in self.re.find_iter(text) {
            if let Ok(m) = m {
                out.push((m.start(), m.end()));
            }
        }
        out
    }
}

/// A character boundary of a text is one of its tail, shifted.
pub proof fn lemma_boundary_subrange(bytes: Seq<u8>, a: int, b: int)
    requires
        valid_utf8(bytes),
        is_char_boundary(bytes, a),
        is_char_boundary(bytes, b),
        0 <= a <= b <= bytes.len(),
    ensures
        valid_utf8(bytes.subrange(a, bytes.len() as int)),
        is_char_boundary(bytes.subrange(a, bytes.len() as int), b - a),
{
    valid_utf8_split(bytes, a);
    let tail = bytes.subrange(a, bytes.len() as int);
    if b == bytes.len() || b == a {
        is_char_boundary_start_end_of_seq(tail);
    } else {
        is_char_boundary_iff_not_is_continuation_byte(bytes, b);
        is_char_boundary_iff_not_is_continuation_byte(tail, b - a);
        assert(tail[b - a] == bytes[b]);
    }
}

/// The substring of `text` between byte offsets `start` and `end`.
pub fn str_byte_slice<'a>(text: &'a str, start: usize, end: usize) -> (r: &'a str)
    requires
        start <= end,
        end <= text.spec_bytes().len(),
        is_char_boundary(text.spec_bytes(), start as int),
        is_char_boundary(text.spec_bytes(), end as int),
    ensures
        r.spec_bytes() == text.spec_bytes().subrange(start as int, end as int),
{
    proof {
        encode_utf8_valid_utf8(text@);
        lemma_boundary_subrange(text.spec_bytes(), start as int, end as int);
    }
    let pair = text.split_at(start);
    let tail = pair.1;
    let piece_pair = tail.split_at(end - start);
    proof {
        assert(piece_pair.0.spec_bytes() =~= text.spec_bytes().subrange(
            start as int,
            end as int,
        ));
    }
    piece_pair.0
}

/// The bytes of the matched pieces, in order, gaps discarded.
pub open spec fn match_pieces_from(spans: Seq<(int, int)>, bytes: Seq<u8>, k: int) -> Seq<Seq<u8>>
    decreases spans.len() - k,
{
    if k < 0 || k >= spans.len() {
        Seq::empty()
    } else {
        seq![bytes.subrange(spans[k].0, spans[k].1)] + match_pieces_from(spans, bytes, k + 1)
    }
}

/// The bytes of the isolated alternation of gaps and matches, in order,
/// empty gaps suppressed; `last` is the end of the previous match.
pub open spec fn split_pieces_from(
    spans: Seq<(int, int)>,
    bytes: Seq<u8>,
    k: int,
    last: int,
) -> Seq<Seq<u8>>
    decreases spans.len() - k,
{
    if k < 0 || k >= spans.len() {
        if last < bytes.len() {
            seq![bytes.subrange(last, bytes.len() as int)]
        } else {
            Seq::empty()
        }
    } else {
        let gap: Seq<Seq<u8>> = if spans[k].0 > last {
            seq![bytes.subrange(last, spans[k].0)]
        } else {
            Seq::empty()
        };
        gap + seq![bytes.subrange(spans[k].0, spans[k].1)] + split_pieces_from(
            spans,
            bytes,
            k + 1,
            spans[k].1,
        )
    }
}

/// The matched pieces of `text` under `re`, as strings (gaps discarded).
#[verifier::loop_isolation(false)]
pub fn match_pieces(re: &CompiledRegex, text: &str) -> (out: Vec<String>)
    ensures
        out@.map_values(|s: String| encode_utf8(s@)) == match_pieces_from(
            regex_spans(re.pattern@, text@),
            text.spec_bytes(),
            0,
        ),
        crate::merge::parts_total(
            match_pieces_from(regex_spans(re.pattern@, text@), text.spec_bytes(), 0),
        ) <= text.spec_bytes().len(),
{
    let spans = re.find_spans(text);
    let ghost gspans = regex_spans(re.pattern@, text@);
    let ghost bytes = text.spec_bytes();
    let mut out: Vec<String> = Vec::new();
    let mut k: usize = 0;
    while k < spans.len()
        invariant
            k <= spans@.len(),
            out@.map_values(|s: String| encode_utf8(s@)) + match_pieces_from(gspans, bytes, k as int)
                =~= match_pieces_from(gspans, bytes, 0),
            crate::merge::parts_total(out@.map_values(|s: String| encode_utf8(s@))) <= if k == 0 {
                0int
            } else {
                spans@[k as int - 1].1 as int
            },
            k > 0 ==> spans@[k as int - 1].1 <= bytes.len(),
        decreases spans@.len() - k,
    {
        let (s, e) = spans[k];
        proof {
            if k > 0 {
                assert(spans@[k as int - 1].1 <= spans@[k as int].0);
            }
        }
        let (s, e) = spans[k];
        let piece = str_byte_slice(text, s, e);
        let ghost before = out@;
        out.push(piece.to_owned());
        proof {
            crate::merge::lemma_parts_total_push(
                before.map_values(|s2: String| encode_utf8(s2@)),
                piece.spec_bytes(),
            );
            assert(out@.map_values(|s2: String| encode_utf8(s2@)) =~= before.map_values(
                |s2: String| encode_utf8(s2@),
            ).push(piece.spec_bytes()));
            assert(gspans[k as int] == (s as int, e as int));
            assert(before.map_values(|s2: String| encode_utf8(s2@)).push(
                bytes.subrange(s as int, e as int),
            ) + match_pieces_from(gspans, bytes, k as int + 1) =~= before.map_values(
                |s2: String| encode_utf8(s2@),
            ) + match_pieces_from(gspans, bytes, k as int));
        }
        k += 1;
    }
    proof {
        assert(match_pieces_from(gspans, bytes, spans@.len() as int) =~= Seq::<Seq<u8>>::empty());
        assert(out@.map_values(|s: String| encode_utf8(s@)) =~= out@.map_values(
            |s: String| encode_utf8(s@),
        ) + Seq::<Seq<u8>>::empty());
    }
    out
}

/// Piece byte lengths, summed from index `k` on.
pub open spec fn sum_piece_lens(pieces: Seq<Seq<u8>>, k: int) -> int
    decreases pieces.len() - k,
{
    if k < 0 || k >= pieces.len() {
        0
    } else {
        pieces[k].len() + sum_piece_lens(pieces, k + 1)
    }
}

pub proof fn lemma_sum_lens_nonneg(pieces: Seq<Seq<u8>>, k: int)
    ensures
        sum_piece_lens(pieces, k) >= 0,
    decreases pieces.len() - k,
{
    if 0 <= k && k < pieces.len() {
        lemma_sum_lens_nonneg(pieces, k + 1);
    }
}

/// A suffix sum never exceeds the sum over all pieces.
pub proof fn lemma_sum_lens_suffix_le(pieces: Seq<Seq<u8>>, k: int)
    requires
        0 <= k,
    ensures
        sum_piece_lens(pieces, k) <= sum_piece_lens(pieces, 0),
    decreases k,
{
    lemma_sum_lens_nonneg(pieces, k);
    lemma_sum_lens_nonneg(pieces, 0);
    if k > 0 {
        lemma_sum_lens_suffix_le(pieces, k - 1);
        if k - 1 < pieces.len() {
            lemma_sum_lens_nonneg(pieces, k);
            assert(sum_piece_lens(pieces, k - 1) == pieces[k - 1].len() + sum_piece_lens(
                pieces,
                k,
            ));
        } else {
            assert(sum_piece_lens(pieces, k) == 0);
        }
    }
}

/// The front-recursive length sum agrees with the fold over all parts.
pub proof fn lemma_sum_lens_eq_total(pieces: Seq<Seq<u8>>, k: int)
    requires
        0 <= k <= pieces.len(),
    ensures
        sum_piece_lens(pieces, k) == crate::merge::parts_total(pieces.skip(k)),
    decreases pieces.len() - k,
{
    if k == pieces.len() {
        assert(pieces.skip(k) =~= Seq::<Seq<u8>>::empty());
    } else {
        lemma_sum_lens_eq_total(pieces, k + 1);
        assert(pieces.skip(k) =~= seq![pieces[k]] + pieces.skip(k + 1));
        crate::merge::lemma_parts_total_concat(seq![pieces[k]], pieces.skip(k + 1));
        assert(seq![pieces[k]].drop_last() =~= Seq::<Seq<u8>>::empty());
        assert(seq![pieces[k]].len() == 1 && seq![pieces[k]].last() == pieces[k]);
        assert(crate::merge::parts_total(seq![pieces[k]].drop_last()) == 0);
        assert(crate::merge::parts_total(seq![pieces[k]]) == pieces[k].len());
    }
}

/// The isolated alternation of gap and match substrings of `text` under
/// `re`, in input order, empty gaps suppressed.
#[verifier::loop_isolation(false)]
#[verifier::rlimit(100)]
pub fn split_isolated(re: &CompiledRegex, text: &str) -> (out: Vec<String>)
    ensures
        out@.map_values(|s: String| encode_utf8(s@)) == split_pieces_from(
            regex_spans(re.pattern@, text@),
            text.spec_bytes(),
            0,
            0,
        ),
{
    let spans = re.find_spans(text);
    let ghost gspans = regex_spans(re.pattern@, text@);
    let ghost bytes = text.spec_bytes();
    let tlen = text.as_bytes().len();
    proof {
        encode_utf8_valid_utf8(text@);
        is_char_boundary_start_end_of_seq(bytes);
    }
    let mut out: Vec<String> = Vec::new();
    let mut last_end: usize = 0;
    let mut k: usize = 0;
    while k < spans.len()
        invariant
            k <= spans@.len(),
            last_end <= bytes.len(),
            is_char_boundary(bytes, last_end as int),
            k > 0 ==> last_end as int == gspans[k as int - 1].1,
            k == 0 ==> last_end == 0,
            out@.map_values(|s: String| encode_utf8(s@)) + split_pieces_from(
                gspans,
                bytes,
                k as int,
                last_end as int,
            ) =~= split_pieces_from(gspans, bytes, 0, 0),
        decreases spans@.len() - k,
    {
        let (s, e) = spans[k];
        proof {
            assert(gspans[k as int] == (s as int, e as int));
            if k > 0 {
                assert(gspans[k as int - 1].1 <= gspans[k as int].0);
            }
        }
        let ghost before = out@;
        if s > last_end {
            let gap = str_byte_slice(text, last_end, s);
            out.push(gap.to_owned());
        }
        let piece = str_byte_slice(text, s, e);
        out.push(piece.to_owned());
        proof {
            let gmap = |s2: String| encode_utf8(s2@);
            if s > last_end {
                assert(out@.map_values(gmap) =~= before.map_values(gmap).push(
                    bytes.subrange(last_end as int, s as int),
                ).push(bytes.subrange(s as int, e as int)));
            } else {
                assert(out@.map_values(gmap) =~= before.map_values(gmap).push(
                    bytes.subrange(s as int, e as int),
                ));
            }
            assert(out@.map_values(gmap) + split_pieces_from(gspans, bytes, k as int + 1, e as int)
                =~= before.map_values(gmap) + split_pieces_from(
                gspans,
                bytes,
                k as int,
                last_end as int,
            ));
        }
        last_end = e;
        k += 1;
    }
    let ghost gmap = |s2: String| encode_utf8(s2@);
    if last_end < tlen {
        let ghost before = out@;
        let rest = str_byte_slice(text, last_end, tlen);
        out.push(rest.to_owned());
        proof {
            assert(out@.map_values(gmap) =~= before.map_values(gmap).push(
                bytes.subrange(last_end as int, bytes.len() as int),
            ));
            assert(split_pieces_from(gspans, bytes, spans@.len() as int, last_end as int)
                =~= seq![bytes.subrange(last_end as int, bytes.len() as int)]);
            assert(out@.map_values(gmap) =~= before.map_values(gmap) + split_pieces_from(
                gspans,
                bytes,
                spans@.len() as int,
                last_end as int,
            ));
        }
    } else {
        proof {
            assert(split_pieces_from(gspans, bytes, spans@.len() as int, last_end as int)
                =~= Seq::<Seq<u8>>::empty());
            assert(out@.map_values(gmap) =~= out@.map_values(gmap) + Seq::<Seq<u8>>::empty());
        }
    }
    out
}

} // verus!
