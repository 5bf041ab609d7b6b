//! HF-style tokenizer counting: a normalizer tree, a pre-tokenizer
//! sequence, then BPE merging with byte-fallback against a frozen merges
//! map, all driven by one frozen tokenizer blob.

use vstd::prelude::*;
use vstd::string::{StrSliceExecFns, StringExecFns, StringSliceAdditionalSpecFns};
use vstd::utf8::{encode_scalar, encode_utf8, decode_utf8, char_is_scalar, char_u32_cast};

use unicode_normalization::UnicodeNormalization;

use crate::byte_level;
use crate::frozen::{le32, tbl_has, tbl_wf};
use crate::matcher::{CompiledRegex, regex_spans, split_isolated, split_pieces_from};
use crate::merge::{bpe_count_spec, bpe_merge_count};

verus! {

// ---------------------------------------------------------------------------
// Characters and their UTF-8 bytes, executable.
// ---------------------------------------------------------------------------

/// The UTF-8 bytes of one character, computed as `encode_scalar` states.
pub fn encode_char_utf8(c: char) -> (out: Vec<u8>)
    ensures
        out@ == encode_scalar(c as u32),
        1 <= out@.len() <= 4,
{
    proof {
        char_is_scalar(c);
    }
    let v = c as u32;
    let mut out: Vec<u8> = Vec::new();
    if v <= 0x7F {
        out.push((v & 0x7F) as u8);
    } else if v <= 0x7FF {
        out.push(0xC0u8 | ((v >> 6u32) & 0x1F) as u8);
        out.push(0x80u8 | (v & 0x3F) as u8);
    } else if v <= 0xFFFF {
        out.push(0xE0u8 | ((v >> 12u32) & 0x0F) as u8);
        out.push(0x80u8 | ((v >> 6u32) & 0x3F) as u8);
        out.push(0x80u8 | (v & 0x3F) as u8);
    } else {
        out.push(0xF0u8 | ((v >> 18u32) & 0x7) as u8);
        out.push(0x80u8 | ((v >> 12u32) & 0x3F) as u8);
        out.push(0x80u8 | ((v >> 6u32) & 0x3F) as u8);
        out.push(0x80u8 | (v & 0x3F) as u8);
    }
    proof {
        assert(out@ =~= encode_scalar(c as u32));
    }
    out
}

/// Relies on String::push: appends one character to the string.
#[verifier::external_body]
fn push_char(s: &mut String, c: char)
    ensures
        final(s)@ == old(s)@.push(c),
{
    s.push(c);
}

/// The characters of a string slice, as a vector.
#[verifier::loop_isolation(false)]
pub fn str_chars(s: &str) -> (v: Vec<char>)
    ensures
        v@ == s@,
{
    let n = s.unicode_len();
    let mut v: Vec<char> = Vec::new();
    let mut i: usize = 0;
    while i < n
        invariant
            i <= n,
            v@ == s@.take(i as int),
        decreases n - i,
    {
        v.push(s.get_char(i));
        proof {
            assert(s@.take(i as int).push(s@[i as int]) =~= s@.take(i as int + 1));
        }
        i += 1;
    }
    proof {
        assert(s@.take(n as int) =~= s@);
    }
    v
}

/// A string holding exactly the given characters.
#[verifier::loop_isolation(false)]
pub fn chars_to_string(v: &Vec<char>) -> (s: String)
    ensures
        s@ == v@,
{
    let mut s = String::new();
    let mut i: usize = 0;
    while i < v.len()
        invariant
            i <= v@.len(),
            s@ == v@.take(i as int),
        decreases v@.len() - i,
    {
        push_char(&mut s, v[i]);
        proof {
            assert(v@.take(i as int).push(v@[i as int]) =~= v@.take(i as int + 1));
        }
        i += 1;
    }
    proof {
        assert(v@.take(v@.len() as int) =~= v@);
    }
    s
}

// ---------------------------------------------------------------------------
// Normalizers.
// ---------------------------------------------------------------------------

/// Unicode Normalization Form C of a character sequence.
pub uninterp spec fn nfc_of(s: Seq<char>) -> Seq<char>;

/// Relies on unicode_normalization's `UnicodeNormalization::nfc` over the
/// string's characters: Normalization Form C, a function of the character
/// sequence alone; an empty input yields an empty output.
#[verifier::external_body]
fn nfc_string(text: &str) -> (r: String)
    ensures
        r@ == nfc_of(text@),
        text@.len() == 0 ==> r@.len() == 0,
{
    text.nfc().collect()
}

/// Literal leftmost non-overlapping replacement of `pat` by `rep`.
/// An empty pattern replaces nothing.
pub open spec fn replace_spec(s: Seq<char>, pat: Seq<char>, rep: Seq<char>) -> Seq<char>
    decreases s.len(),
{
    if pat.len() == 0 || s.len() < pat.len() {
        s
    } else if s.take(pat.len() as int) == pat {
        rep + replace_spec(s.skip(pat.len() as int), pat, rep)
    } else {
        seq![s[0]] + replace_spec(s.drop_first(), pat, rep)
    }
}

/// Replaces every occurrence of `pat` in `s` by `rep`, leftmost first.
#[verifier::loop_isolation(false)]
#[verifier::spinoff_prover]
#[verifier::rlimit(100)]
pub fn replace_chars(s: &Vec<char>, pat: &Vec<char>, rep: &Vec<char>) -> (out: Vec<char>)
    ensures
        out@ == replace_spec(s@, pat@, rep@),
{
    let n = s.len();
    let plen = pat.len();
    let mut out: Vec<char> = Vec::new();
    let mut i: usize = 0;
    proof {
        assert(s@.skip(0) =~= s@);
        assert(Seq::<char>::empty() + replace_spec(s@, pat@, rep@) =~= replace_spec(
            s@,
            pat@,
            rep@,
        ));
    }
    while i < n
        invariant
            i <= n,
            replace_spec(s@, pat@, rep@) == out@ + replace_spec(s@.skip(i as int), pat@, rep@),
        decreases n - i,
    {
        let can = plen >= 1 && plen <= n - i;
        let mut is_match = can;
        let mut j: usize = 0;
        while j < plen && is_match
            invariant
                j <= plen,
                can ==> i + plen <= n,
                is_match ==> can,
                is_match ==> forall|d: int| 0 <= d < j ==> s@[i + d] == pat@[d],
                can && !is_match ==> j < plen && s@[i + j] != pat@[j as int],
            decreases plen - j + (if is_match { 1int } else { 0int }),
        {
            if s[i + j] != pat[j] {
                is_match = false;
            } else {
                j += 1;
            }
        }
        let ghost rest = s@.skip(i as int);
        if is_match {
            proof {
                assert(rest.take(plen as int) =~= pat@);
                assert(rest.skip(plen as int) =~= s@.skip(i as int + plen));
            }
            let mut t: usize = 0;
            while t < rep.len()
                invariant
                    t <= rep@.len(),
                    replace_spec(s@, pat@, rep@) == out@ + rep@.skip(t as int) + replace_spec(
                        s@.skip(i as int + plen),
                        pat@,
                        rep@,
                    ),
                decreases rep@.len() - t,
            {
                out.push(rep[t]);
                proof {
                    assert(out@ + rep@.skip(t as int + 1) =~= out@.drop_last() + rep@.skip(
                        t as int,
                    ));
                }
                t += 1;
            }
            proof {
                assert(rep@.skip(rep@.len() as int) =~= Seq::<char>::empty());
                assert(out@ + Seq::<char>::empty() =~= out@);
            }
            i += plen;
        } else {
            proof {
                if can {
                    assert(rest.take(plen as int) != pat@) by {
                        assert(rest.take(plen as int)[j as int] == s@[i + j]);
                    }
                }
                assert(rest.drop_first() =~= s@.skip(i as int + 1));
                assert(seq![rest[0]] + replace_spec(s@.skip(i as int + 1), pat@, rep@)
                    == replace_spec(rest, pat@, rep@));
            }
            out.push(s[i]);
            proof {
                assert(out@ + replace_spec(s@.skip(i as int + 1), pat@, rep@) =~= out@.drop_last()
                    + (seq![s@[i as int]] + replace_spec(s@.skip(i as int + 1), pat@, rep@)));
            }
            i += 1;
        }
    }
    proof {
        assert(s@.skip(n as int) =~= Seq::<char>::empty());
        assert(out@ + Seq::<char>::empty() =~= out@);
    }
    out
}

/// A normalizer tree: evaluated string to string.
pub enum Normalizer {
    Identity,
    Replace { pattern: String, content: String },
    Prepend(String),
    Nfc,
    Sequence(Vec<Normalizer>),
}

/// What one normalizer produces from `s`.
pub open spec fn norm_spec(n: Normalizer, s: Seq<char>) -> Seq<char>
    decreases n,
{
    match n {
        Normalizer::Identity => s,
        Normalizer::Replace { pattern, content } => replace_spec(s, pattern@, content@),
        Normalizer::Prepend(p) => p@ + s,
        Normalizer::Nfc => nfc_of(s),
        Normalizer::Sequence(ns) => norm_fold(ns@, s, 0),
    }
}

/// Folds a normalizer list over `s`, left to right, starting at `i`.
pub open spec fn norm_fold(ns: Seq<Normalizer>, s: Seq<char>, i: int) -> Seq<char>
    decreases ns, ns.len() - i,
{
    if i < 0 || i >= ns.len() {
        s
    } else {
        norm_fold(ns, norm_spec(ns[i], s), i + 1)
    }
}

/// Applies a normalizer tree to a string.
#[verifier::loop_isolation(false)]
pub fn apply_normalizer(n: &Normalizer, text: &str) -> (out: String)
    ensures
        out@ == norm_spec(*n, text@),
    decreases *n,
{
    match n {
        Normalizer::Identity => text.to_owned(),
        Normalizer::Replace { pattern, content } => {
            let sv = str_chars(text);
            let pv = str_chars(pattern.as_str());
            let cv = str_chars(content.as_str());
            let rv = replace_chars(&sv, &pv, &cv);
            chars_to_string(&rv)
        },
        Normalizer::Prepend(p) => {
            let mut out = String::from_str(p.as_str());
            out.append(text);
            out
        },
        Normalizer::Nfc => nfc_string(text),
        Normalizer::Sequence(ns) => {
            let mut cur: String = text.to_owned();
            let mut i: usize = 0;
            while i < ns.len()
                invariant
                    i <= ns@.len(),
                    norm_fold(ns@, text@, 0) == norm_fold(ns@, cur@, i as int),
                decreases ns@.len() - i,
            {
                proof {
                    assert(ns@[i as int] == ns[i as int]);
                }
                let stepped = apply_normalizer(&ns[i], cur.as_str());
                cur = stepped;
                i += 1;
            }
            cur
        },
    }
}

} // verus!

verus! {

// ---------------------------------------------------------------------------
// Pre-tokenizer.
// ---------------------------------------------------------------------------

/// One pre-tokenizer step: isolate regex matches, or byte-level remap.
pub enum PreStep {
    Split(CompiledRegex),
    ByteLevel { table: Vec<char> },
}

/// A byte-level table is the byte-level map.
pub open spec fn step_wf(s: PreStep) -> bool {
    match s {
        PreStep::Split(_) => true,
        PreStep::ByteLevel { table } => table@.len() == 256 && forall|b: int|
            0 <= b < 256 ==> (#[trigger] table@[b]) as u32 == byte_level::byte_level_cp(b as u8),
    }
}

/// A chunk remapped byte-for-byte through the byte-level alphabet.
pub open spec fn bytelevel_spec(chunk: Seq<char>) -> Seq<char> {
    encode_utf8(chunk).map_values(|b: u8| ((byte_level::byte_level_cp(b) as u32) as char))
}

/// The chunks one step produces from one chunk.
pub open spec fn step_chunks(s: PreStep, chunk: Seq<char>) -> Seq<Seq<char>> {
    match s {
        PreStep::Split(re) => split_pieces_from(
            regex_spans(re.pattern@, chunk),
            encode_utf8(chunk),
            0,
            0,
        ).map_values(|b: Seq<u8>| decode_utf8(b)),
        PreStep::ByteLevel { .. } => seq![bytelevel_spec(chunk)],
    }
}

/// One step applied to every chunk from index `k` on, concatenated.
pub open spec fn step_chunks_all(s: PreStep, chunks: Seq<Seq<char>>, k: int) -> Seq<Seq<char>>
    decreases chunks.len() - k,
{
    if k < 0 || k >= chunks.len() {
        Seq::empty()
    } else {
        step_chunks(s, chunks[k]) + step_chunks_all(s, chunks, k + 1)
    }
}

/// The steps from index `i` on, folded over the working chunk list.
pub open spec fn apply_steps_spec(steps: Seq<PreStep>, chunks: Seq<Seq<char>>, i: int) -> Seq<
    Seq<char>,
>
    decreases steps.len() - i,
{
    if i < 0 || i >= steps.len() {
        chunks
    } else {
        apply_steps_spec(steps, step_chunks_all(steps[i], chunks, 0), i + 1)
    }
}

/// The chunk list the pre-tokenizer produces from `text`.
pub open spec fn pre_tokenize_spec(steps: Seq<PreStep>, text: Seq<char>) -> Seq<Seq<char>> {
    apply_steps_spec(steps, seq![text], 0)
}

/// Applies the pre-tokenizer steps left to right over the working chunks.
#[verifier::loop_isolation(false)]
#[verifier::rlimit(100)]
pub fn apply_pre_tokenizer(steps: &Vec<PreStep>, text: &str) -> (out: Vec<String>)
    requires
        forall|i: int| 0 <= i < steps@.len() ==> step_wf(#[trigger] steps@[i]),
    ensures
        out@.map_values(|s: String| s@) == pre_tokenize_spec(steps@, text@),
{
    let mut chunks: Vec<String> = Vec::new();
    chunks.push(text.to_owned());
    proof {
        assert(chunks@.map_values(|s: String| s@) =~= seq![text@]);
    }
    let mut i: usize = 0;
    while i < steps.len()
        invariant
            i <= steps@.len(),
            apply_steps_spec(steps@, chunks@.map_values(|s: String| s@), i as int)
                == pre_tokenize_spec(steps@, text@),
        decreases steps@.len() - i,
    {
        let ghost cur = chunks@.map_values(|s: String| s@);
        let mut next: Vec<String> = Vec::new();
        let mut q: usize = 0;
        while q < chunks.len()
            invariant
                q <= chunks@.len(),
                i < steps@.len(),
                cur == chunks@.map_values(|s: String| s@),
                next@.map_values(|s: String| s@) + step_chunks_all(steps@[i as int], cur, q as int)
                    =~= step_chunks_all(steps@[i as int], cur, 0),
            decreases chunks@.len() - q,
        {
            let ghost nbefore = next@.map_values(|s: String| s@);
            match &steps[i] {
                PreStep::Split(re) => {
                    let pieces = split_isolated(re, chunks[q].as_str());
                    proof {
                        vstd::utf8::encode_utf8_decode_utf8(Seq::<char>::empty());
                    }
                    let mut p: usize = 0;
                    while p < pieces.len()
                        invariant
                            p <= pieces@.len(),
                            q < chunks@.len(),
                            i < steps@.len(),
                            cur == chunks@.map_values(|s: String| s@),
                            pieces@.map_values(|s: String| encode_utf8(s@)) == split_pieces_from(
                                regex_spans(
                                    (steps@[i as int])->Split_0.pattern@,
                                    cur[q as int],
                                ),
                                encode_utf8(cur[q as int]),
                                0,
                                0,
                            ),
                            next@.map_values(|s: String| s@) =~= nbefore + pieces@.map_values(
                                |s: String| s@,
                            ).take(p as int),
                        decreases pieces@.len() - p,
                    {
                        let ghost pv = pieces@.map_values(|s: String| s@);
                        let ghost next_before = next@;
                        let piece = pieces[p].clone();
                        proof {
                            assert(piece@ == pieces@[p as int]@);
                        }
                        next.push(piece);
                        proof {
                            assert(next@ =~= next_before.push(piece));
            assert(next@.map_values(|s: String| s@).len() == next_before.len() + 1);
                            assert(next_before.map_values(|s: String| s@) == nbefore + pv.take(
                                p as int,
                            ));
                            assert forall|x: int| 0 <= x < next@.len() implies next@.map_values(
                                |s: String| s@,
                            )[x] == (nbefore + pv.take(p as int).push(pv[p as int]))[x] by {
                                if x < next_before.len() {
                                    assert(next@[x] == next_before[x]);
                                    assert(next@.map_values(|s: String| s@)[x] == next@[x]@);
                                    assert(next_before.map_values(|s: String| s@)[x]
                                        == next_before[x]@);
                                    assert((nbefore + pv.take(p as int))[x] == (nbefore + pv.take(
                                        p as int,
                                    ).push(pv[p as int]))[x]);
                                } else {
                                    assert(next@[x] == piece);
                                    assert(next@.map_values(|s: String| s@)[x] == piece@);
                                    assert(x == nbefore.len() + p);
                                    assert((nbefore + pv.take(p as int).push(pv[p as int]))[x]
                                        == pv[p as int]);
                                }
                            }
                            assert(next@.map_values(|s: String| s@) =~= nbefore + pv.take(
                                p as int,
                            ).push(pv[p as int]));
                            assert(pv.take(p as int).push(pv[p as int]) =~= pv.take(p as int + 1));
                        }
                        p += 1;
                    }
                    proof {
                        let pv = pieces@.map_values(|s: String| s@);
                        assert(pv.take(pieces@.len() as int) =~= pv);
                        assert forall|x: int| 0 <= x < pv.len() implies pv[x] == step_chunks(
                            steps@[i as int],
                            cur[q as int],
                        )[x] by {
                            vstd::utf8::encode_utf8_decode_utf8(pv[x]);
                        }
                        assert(pv =~= step_chunks(steps@[i as int], cur[q as int]));
                    }
                },
                PreStep::ByteLevel { table } => {
                    let bytes = chunks[q].as_str().as_bytes();
                    let encoded = byte_level::encode_bytes(bytes, table);
                    let enc_str = chars_to_string(&encoded);
                    next.push(enc_str);
                    proof {
                        assert forall|x: int| 0 <= x < encoded@.len() implies encoded@[x]
                            == bytelevel_spec(cur[q as int])[x] by {
                            let b = encode_utf8(cur[q as int])[x];
                            char_u32_cast(
                                encoded@[x],
                                (byte_level::byte_level_cp(b) as u32),
                            );
                        }
                        assert(encoded@ =~= bytelevel_spec(cur[q as int]));
                        assert(next@.map_values(|s: String| s@) =~= nbefore + seq![
                            bytelevel_spec(cur[q as int]),
                        ]);
                    }
                },
            }
            proof {
                assert(next@.map_values(|s: String| s@) + step_chunks_all(
                    steps@[i as int],
                    cur,
                    q as int + 1,
                ) =~= nbefore + step_chunks_all(steps@[i as int], cur, q as int));
            }
            q += 1;
        }
        proof {
            assert(step_chunks_all(steps@[i as int], cur, chunks@.len() as int) =~= Seq::<
                Seq<char>,
            >::empty());
            assert(next@.map_values(|s: String| s@) =~= next@.map_values(|s: String| s@) + Seq::<
                Seq<char>,
            >::empty());
        }
        chunks = next;
        i += 1;
    }
    chunks
}

} // verus!

verus! {

// ---------------------------------------------------------------------------
// Initial token sequences and byte-fallback.
// ---------------------------------------------------------------------------

/// ASCII code of the hex digit for `v` (0..15), upper case.
pub open spec fn hex_digit(v: u8) -> u8 {
    if v < 10 {
        (0x30 + v) as u8
    } else {
        (0x41 + v - 10) as u8
    }
}

/// The bytes of the `<0xHH>` byte-fallback token for byte `b`.
pub open spec fn hex_token(b: u8) -> Seq<u8> {
    seq![0x3Cu8, 0x30u8, 0x78u8, hex_digit(b / 16), hex_digit((b % 16) as u8), 0x3Eu8]
}

/// One `<0xHH>` token per byte of `bs`.
pub open spec fn fallback_tokens(bs: Seq<u8>) -> Seq<Seq<u8>> {
    Seq::new(bs.len(), |i: int| hex_token(bs[i]))
}

/// The initial token list of a chunk, from character `i` on: each scalar
/// becomes its own UTF-8 token, except that under byte-fallback a scalar
/// absent from the single-character vocabulary becomes one `<0xHH>` token
/// per UTF-8 byte.
pub open spec fn initial_tokens_spec(cps: Seq<u32>, bf: bool, chunk: Seq<char>, i: int) -> Seq<
    Seq<u8>,
>
    decreases chunk.len() - i,
{
    if i < 0 || i >= chunk.len() {
        Seq::empty()
    } else {
        let c = chunk[i];
        let head: Seq<Seq<u8>> = if !bf || cps.contains(c as u32) {
            seq![encode_scalar(c as u32)]
        } else {
            fallback_tokens(encode_scalar(c as u32))
        };
        head + initial_tokens_spec(cps, bf, chunk, i + 1)
    }
}

/// The `<0xHH>` token for byte `b`, executable.
fn hex_token_bytes(b: u8) -> (out: Vec<u8>)
    ensures
        out@ == hex_token(b),
{
    let hi = b / 16;
    let lo = b % 16;
    let d1: u8 = if hi < 10 {
        0x30 + hi
    } else {
        0x41 + hi - 10
    };
    let d2: u8 = if lo < 10 {
        0x30 + lo
    } else {
        0x41 + lo - 10
    };
    let mut out: Vec<u8> = Vec::new();
    out.push(0x3C);
    out.push(0x30);
    out.push(0x78);
    out.push(d1);
    out.push(d2);
    out.push(0x3E);
    proof {
        assert(out@ =~= hex_token(b));
    }
    out
}

/// Strictly ascending code-point list.
pub open spec fn cps_sorted(cps: Seq<u32>) -> bool {
    forall|i: int, j: int| 0 <= i < j < cps.len() ==> cps[i] < cps[j]
}

/// Binary search in a strictly ascending code-point list.
#[verifier::loop_isolation(false)]
pub fn sorted_contains(data: &[u8], off: usize, count: usize, target: u32) -> (r: bool)
    requires
        off + 4 * count <= data@.len(),
        cps_sorted(Seq::new(count as nat, |i: int| le32(data@, off + 4 * i))),
    ensures
        r == Seq::new(count as nat, |i: int| le32(data@, off + 4 * i)).contains(target),
{
    let dl = data.len();
    let ghost cps = Seq::new(count as nat, |i: int| le32(data@, off + 4 * i));
    let mut lo: usize = 0;
    let mut hi: usize = count;
    while lo < hi
        invariant
            lo <= hi <= count,
            forall|k: int| 0 <= k < lo ==> #[trigger] cps[k] < target,
            forall|k: int| hi <= k < count ==> #[trigger] cps[k] > target,
        decreases hi - lo,
    {
        let mid = lo + (hi - lo) / 2;
        let cp = crate::frozen::read_u32(data, off + 4 * mid);
        proof {
            assert(cp == cps[mid as int]);
        }
        if cp == target {
            proof {
                assert(cps[mid as int] == target);
            }
            return true;
        } else if cp < target {
            proof {
                assert forall|k: int| 0 <= k < mid + 1 implies #[trigger] cps[k] < target by {
                    if k < mid {
                        assert(cps[k] < cps[mid as int]);
                    }
                }
            }
            lo = mid + 1;
        } else {
            proof {
                assert forall|k: int| mid <= k < count implies #[trigger] cps[k] > target by {
                    if k > mid {
                        assert(cps[mid as int] < cps[k]);
                    }
                }
            }
            hi = mid;
        }
    }
    proof {
        if cps.contains(target) {
            let w = choose|w: int| 0 <= w < cps.len() && cps[w] == target;
            assert(false);
        }
    }
    false
}

// ---------------------------------------------------------------------------
// The long-chunk heuristic.
// ---------------------------------------------------------------------------

/// The first breakable boundary in `[j, end)`: a position whose left
/// token is not a known merge left side, or whose right token is not a
/// known merge right side.  No merge can cross such a position.
pub open spec fn find_cut(
    left: Seq<u8>,
    right: Seq<u8>,
    tokens: Seq<Seq<u8>>,
    j: int,
    end: int,
) -> Option<int>
    decreases end - j,
{
    if j >= end {
        None
    } else if j >= 1 && j < tokens.len() && (!tbl_has(left, 14, tokens[j - 1]) || !tbl_has(
        right,
        14,
        tokens[j],
    )) {
        Some(j)
    } else {
        find_cut(left, right, tokens, j + 1, end)
    }
}

pub proof fn lemma_find_cut_range(
    left: Seq<u8>,
    right: Seq<u8>,
    tokens: Seq<Seq<u8>>,
    j: int,
    end: int,
)
    ensures
        find_cut(left, right, tokens, j, end).is_some() ==> j
            <= find_cut(left, right, tokens, j, end).unwrap() < end && find_cut(
            left,
            right,
            tokens,
            j,
            end,
        ).unwrap() < tokens.len(),
    decreases end - j,
{
    if j < end {
        lemma_find_cut_range(left, right, tokens, j + 1, end);
    }
}

/// The count the windowed merge produces: windows are cut at breakable
/// boundaries, each window merged independently; if no cut is found in
/// the scan range the remainder is merged in one pass.
pub open spec fn chunked_from(
    merges: Seq<u8>,
    left: Seq<u8>,
    right: Seq<u8>,
    tokens: Seq<Seq<u8>>,
    start: int,
    i: int,
) -> int
    decreases tokens.len() - i,
{
    let n = tokens.len() as int;
    let s2 = if 0 <= start <= n {
        start
    } else {
        0int
    };
    if i >= n {
        bpe_count_spec(merges, tokens.skip(s2), true)
    } else {
        let end = if i + 256 <= n {
            i + 256
        } else {
            n
        };
        match find_cut(left, right, tokens, i, end) {
            None => bpe_count_spec(merges, tokens.skip(s2), true),
            Some(j) => {
                let j2 = if i <= j && j < n {
                    j
                } else {
                    i
                };
                bpe_count_spec(merges, tokens.subrange(s2, j2), true) + (if j2 + 256 >= n {
                    bpe_count_spec(merges, tokens.skip(j2), true)
                } else {
                    chunked_from(merges, left, right, tokens, j2, j2 + 256)
                })
            },
        }
    }
}

/// The token count of one chunk: the initial tokens, merged directly for
/// short chunks and through the windowed path for long ones.
pub open spec fn chunk_count_spec(
    merges: Seq<u8>,
    left: Seq<u8>,
    right: Seq<u8>,
    cps: Seq<u32>,
    bf: bool,
    chunk: Seq<char>,
) -> int {
    let init = initial_tokens_spec(cps, bf, chunk, 0);
    let n = init.len() as int;
    if n <= 1 {
        n
    } else if n > 512 {
        chunked_from(merges, left, right, init, 0, 256)
    } else {
        bpe_count_spec(merges, init, true)
    }
}

} // verus!

verus! {

/// Saturation at the usize limit: what an overlong count collapses to.
pub open spec fn sat_usize(x: int) -> int {
    if x <= usize::MAX {
        x
    } else {
        usize::MAX as int
    }
}

/// Per-chunk counts over the chunk list from index `k` on, empty chunks
/// contributing nothing, summed.
pub open spec fn sum_chunk_counts(
    merges: Seq<u8>,
    left: Seq<u8>,
    right: Seq<u8>,
    cps: Seq<u32>,
    bf: bool,
    chunks: Seq<Seq<char>>,
    k: int,
) -> int
    decreases chunks.len() - k,
{
    if k < 0 || k >= chunks.len() {
        0
    } else {
        (if chunks[k].len() == 0 {
            0int
        } else {
            chunk_count_spec(merges, left, right, cps, bf, chunks[k])
        }) + sum_chunk_counts(merges, left, right, cps, bf, chunks, k + 1)
    }
}

/// An HF-style tokenizer: its frozen blob plus the decoded pipeline.
pub struct HfTokenizer {
    pub data: Vec<u8>,
    pub byte_fallback: bool,
    pub post_add: u32,
    pub normalizer: Normalizer,
    pub pre_steps: Vec<PreStep>,
    pub vocab_off: usize,
    pub vocab_count: usize,
    pub merges_off: usize,
    pub merge_left_off: usize,
    pub merge_right_off: usize,
}

impl HfTokenizer {
    /// The sorted single-code-point vocabulary list.
    pub open spec fn cps_seq(self) -> Seq<u32> {
        Seq::new(self.vocab_count as nat, |i: int| le32(self.data@, self.vocab_off + 4 * i))
    }

    /// The merges map region of the blob.
    pub open spec fn merges_tbl(self) -> Seq<u8> {
        self.data@.subrange(self.merges_off as int, self.merge_left_off as int)
    }

    /// The merge-left-sides set region of the blob.
    pub open spec fn left_tbl(self) -> Seq<u8> {
        self.data@.subrange(self.merge_left_off as int, self.merge_right_off as int)
    }

    /// The merge-right-sides set region of the blob.
    pub open spec fn right_tbl(self) -> Seq<u8> {
        self.data@.subrange(self.merge_right_off as int, self.data@.len() as int)
    }

    /// Offsets in order and in bounds, well-formed tables, sorted
    /// code-point list, well-formed pipeline steps.
    pub open spec fn wf(self) -> bool {
        &&& self.vocab_off + 4 * self.vocab_count <= self.merges_off
        &&& self.merges_off <= self.merge_left_off
        &&& self.merge_left_off <= self.merge_right_off
        &&& self.merge_right_off <= self.data@.len()
        &&& tbl_wf(self.merges_tbl(), 18)
        &&& tbl_wf(self.left_tbl(), 14)
        &&& tbl_wf(self.right_tbl(), 14)
        &&& cps_sorted(self.cps_seq())
        &&& (forall|i: int| 0 <= i < self.pre_steps@.len() ==> step_wf(#[trigger] self.pre_steps@[i]))
    }

    /// What this tokenizer counts for `text` (before usize saturation).
    pub open spec fn hf_count_spec(self, text: Seq<char>) -> int {
        if text.len() == 0 {
            0
        } else {
            self.post_add + sum_chunk_counts(
                self.merges_tbl(),
                self.left_tbl(),
                self.right_tbl(),
                self.cps_seq(),
                self.byte_fallback,
                pre_tokenize_spec(self.pre_steps@, norm_spec(self.normalizer, text)),
                0,
            )
        }
    }

    /// The initial token list of one chunk.
    #[verifier::loop_isolation(false)]
    fn initial_tokens(&self, chars: &Vec<char>) -> (tokens: Vec<Vec<u8>>)
        requires
            self.wf(),
        ensures
            tokens@.map_values(|t: Vec<u8>| t@) == initial_tokens_spec(
                self.cps_seq(),
                self.byte_fallback,
                chars@,
                0,
            ),
    {
        let ghost cps = self.cps_seq();
        let ghost bf = self.byte_fallback;
        let mut tokens: Vec<Vec<u8>> = Vec::new();
        let mut i: usize = 0;
        while i < chars.len()
            invariant
                i <= chars@.len(),
                tokens@.map_values(|t: Vec<u8>| t@) + initial_tokens_spec(cps, bf, chars@, i as int)
                    =~= initial_tokens_spec(cps, bf, chars@, 0),
            decreases chars@.len() - i,
        {
            let c = chars[i];
            let bytes = encode_char_utf8(c);
            let ghost tbefore = tokens@.map_values(|t: Vec<u8>| t@);
            let in_vocab = if self.byte_fallback {
                sorted_contains(self.data.as_slice(), self.vocab_off, self.vocab_count, c as u32)
            } else {
                false
            };
            if !self.byte_fallback || in_vocab {
                tokens.push(bytes);
                proof {
                    assert(tokens@.map_values(|t: Vec<u8>| t@) =~= tbefore.push(
                        encode_scalar(c as u32),
                    ));
                    assert(tbefore.push(encode_scalar(c as u32)) =~= tbefore + seq![
                        encode_scalar(c as u32),
                    ]);
                }
            } else {
                let blen = bytes.len();
                let mut b: usize = 0;
                while b < blen
                    invariant
                        b <= blen,
                        blen == encode_scalar(chars@[i as int] as u32).len(),
                        bytes@ == encode_scalar(chars@[i as int] as u32),
                        i < chars@.len(),
                        tokens@.map_values(|t: Vec<u8>| t@) =~= tbefore + fallback_tokens(
                            bytes@,
                        ).take(b as int),
                    decreases blen - b,
                {
                    let ghost tmid = tokens@.map_values(|t: Vec<u8>| t@);
                    let tok = hex_token_bytes(bytes[b]);
                    tokens.push(tok);
                    proof {
                        assert(tokens@.map_values(|t: Vec<u8>| t@) =~= tmid.push(
                            hex_token(bytes@[b as int]),
                        ));
                        assert(fallback_tokens(bytes@).take(b as int).push(
                            hex_token(bytes@[b as int]),
                        ) =~= fallback_tokens(bytes@).take(b as int + 1));
                    }
                    b += 1;
                }
                proof {
                    assert(fallback_tokens(bytes@).take(blen as int) =~= fallback_tokens(bytes@));
                }
            }
            proof {
                assert(tokens@.map_values(|t: Vec<u8>| t@) + initial_tokens_spec(
                    cps,
                    bf,
                    chars@,
                    i as int + 1,
                ) =~= tbefore + initial_tokens_spec(cps, bf, chars@, i as int));
            }
            i += 1;
        }
        proof {
            assert(initial_tokens_spec(cps, bf, chars@, chars@.len() as int) =~= Seq::<
                Seq<u8>,
            >::empty());
            assert(tokens@.map_values(|t: Vec<u8>| t@) =~= tokens@.map_values(|t: Vec<u8>| t@)
                + Seq::<Seq<u8>>::empty());
        }
        tokens
    }

    /// Copies the token window `[a, b)`.
    #[verifier::loop_isolation(false)]
    fn window_copy(tokens: &Vec<Vec<u8>>, a: usize, b: usize) -> (w: Vec<Vec<u8>>)
        requires
            a <= b <= tokens@.len(),
        ensures
            w@.map_values(|t: Vec<u8>| t@) == tokens@.map_values(|t: Vec<u8>| t@).subrange(
                a as int,
                b as int,
            ),
    {
        let mut w: Vec<Vec<u8>> = Vec::new();
        let mut i: usize = a;
        while i < b
            invariant
                a <= i <= b,
                w@.map_values(|t: Vec<u8>| t@) =~= tokens@.map_values(|t: Vec<u8>| t@).subrange(
                    a as int,
                    i as int,
                ),
            decreases b - i,
        {
            let tlen = tokens[i].len();
            let mut one: Vec<u8> = Vec::new();
            let mut t: usize = 0;
            while t < tlen
                invariant
                    t <= tlen,
                    i < tokens@.len(),
                    tlen == tokens@[i as int]@.len(),
                    one@ == tokens@[i as int]@.take(t as int),
                decreases tlen - t,
            {
                one.push(tokens[i][t]);
                proof {
                    assert(tokens@[i as int]@.take(t as int).push(tokens@[i as int]@[t as int])
                        =~= tokens@[i as int]@.take(t as int + 1));
                }
                t += 1;
            }
            proof {
                assert(tokens@[i as int]@.take(tlen as int) =~= tokens@[i as int]@);
            }
            let ghost wbefore = w@.map_values(|t2: Vec<u8>| t2@);
            w.push(one);
            proof {
                assert(w@.map_values(|t2: Vec<u8>| t2@) =~= wbefore.push(tokens@[i as int]@));
                assert(tokens@.map_values(|t2: Vec<u8>| t2@).subrange(a as int, i as int).push(
                    tokens@[i as int]@,
                ) =~= tokens@.map_values(|t2: Vec<u8>| t2@).subrange(a as int, i as int + 1));
            }
            i += 1;
        }
        w
    }
}

} // verus!

verus! {

impl HfTokenizer {
    /// The windowed merge for long chunks, exactly as `chunked_from`
    /// describes it.
    #[verifier::loop_isolation(false)]
    #[verifier::rlimit(100)]
    fn bpe_count_chunked(&self, tokens: &Vec<Vec<u8>>) -> (r: usize)
        requires
            self.wf(),
            tokens@.len() > 512,
        ensures
            r as int == chunked_from(
                self.merges_tbl(),
                self.left_tbl(),
                self.right_tbl(),
                tokens@.map_values(|t: Vec<u8>| t@),
                0,
                256,
            ),
    {
        let ghost tv = tokens@.map_values(|t: Vec<u8>| t@);
        let ghost gm = self.merges_tbl();
        let ghost gl = self.left_tbl();
        let ghost gr = self.right_tbl();
        let dl = self.data.len();
        let merges = vstd::slice::slice_subrange(
            self.data.as_slice(),
            self.merges_off,
            self.merge_left_off,
        );
        let left = vstd::slice::slice_subrange(
            self.data.as_slice(),
            self.merge_left_off,
            self.merge_right_off,
        );
        let right = vstd::slice::slice_subrange(self.data.as_slice(), self.merge_right_off, dl);
        let n = tokens.len();
        let mut total: usize = 0;
        let mut start: usize = 0;
        let mut i: usize = 256;
        let mut cutting = true;
        while cutting && i < n
            invariant
                start <= i,
                start < n,
                n == tv.len(),
                total <= start,
                total + chunked_from(gm, gl, gr, tv, start as int, i as int) == chunked_from(
                    gm,
                    gl,
                    gr,
                    tv,
                    0,
                    256,
                ),
                !cutting ==> find_cut(gl, gr, tv, i as int, if i + 256 <= n {
                    i as int + 256
                } else {
                    n as int
                }).is_none(),
            decreases n - i + if cutting {
                1int
            } else {
                0int
            },
        {
            let end = if n - i < 256 {
                n
            } else {
                i + 256
            };
            let mut j = i;
            let mut found = false;
            while j < end && !found
                invariant
                    i <= j <= end,
                    end <= n,
                    n == tv.len(),
                    !found ==> find_cut(gl, gr, tv, j as int, end as int) == find_cut(
                        gl,
                        gr,
                        tv,
                        i as int,
                        end as int,
                    ),
                    found ==> find_cut(gl, gr, tv, i as int, end as int) == Some(j as int) && i
                        <= j < end && 1 <= j < n,
                decreases end - j + if found {
                    0int
                } else {
                    1int
                },
            {
                let is_cut = if j == 0 {
                    false
                } else {
                    let llen = tokens[j - 1].len();
                    let lnot = if llen <= 0xFFFF {
                        !crate::frozen::frozen_set_contains(left, tokens[j - 1].as_slice())
                    } else {
                        proof {
                            crate::frozen::lemma_long_key_absent(gl, 14, tv[j as int - 1]);
                        }
                        true
                    };
                    if lnot {
                        true
                    } else {
                        let rlen = tokens[j].len();
                        if rlen <= 0xFFFF {
                            !crate::frozen::frozen_set_contains(right, tokens[j].as_slice())
                        } else {
                            proof {
                                crate::frozen::lemma_long_key_absent(gr, 14, tv[j as int]);
                            }
                            true
                        }
                    }
                };
                if is_cut {
                    found = true;
                } else {
                    j += 1;
                }
            }
            if !found {
                cutting = false;
            } else {
                proof {
                    lemma_find_cut_range(gl, gr, tv, i as int, end as int);
                }
                let window = Self::window_copy(tokens, start, j);
                let c = bpe_merge_count(merges, window, true);
                proof {
                    crate::tiktoken::lemma_merge_le(gm, tv.subrange(start as int, j as int), true);
                }
                total = total + c;
                start = j;
                i = if n - j < 256 {
                    n
                } else {
                    j + 256
                };
                proof {
                    if i == n && j + 256 < n {
                        assert(false);
                    }
                    if (j + 256 >= n) {
                        assert(chunked_from(gm, gl, gr, tv, start as int, i as int)
                            == bpe_count_spec(gm, tv.skip(start as int), true));
                    }
                }
            }
        }
        let tail = Self::window_copy(tokens, start, n);
        proof {
            assert(tail@.map_values(|t: Vec<u8>| t@) =~= tv.skip(start as int));
        }
        let c = bpe_merge_count(merges, tail, true);
        proof {
            crate::tiktoken::lemma_merge_le(gm, tv.skip(start as int), true);
            assert(chunked_from(gm, gl, gr, tv, start as int, i as int) == bpe_count_spec(
                gm,
                tv.skip(start as int),
                true,
            ));
        }
        total + c
    }

    /// The token count of one non-empty chunk.
    fn bpe_count_chunk(&self, chunk: &str) -> (r: usize)
        requires
            self.wf(),
        ensures
            r as int == chunk_count_spec(
                self.merges_tbl(),
                self.left_tbl(),
                self.right_tbl(),
                self.cps_seq(),
                self.byte_fallback,
                chunk@,
            ),
    {
        let chars = str_chars(chunk);
        let tokens = self.initial_tokens(&chars);
        let n = tokens.len();
        if n <= 1 {
            return n;
        }
        if n > 512 {
            self.bpe_count_chunked(&tokens)
        } else {
            let merges = vstd::slice::slice_subrange(
                self.data.as_slice(),
                self.merges_off,
                self.merge_left_off,
            );
            bpe_merge_count(merges, tokens, true)
        }
    }

    /// Counts the tokens of `text`: normalize, pre-tokenize, run BPE on
    /// each non-empty chunk, add the post-processor constant.  The count
    /// saturates at the usize limit; empty input counts 0.
    #[verifier::loop_isolation(false)]
    pub fn count_tokens(&self, text: &str) -> (r: usize)
        requires
            self.wf(),
        ensures
            r as int == sat_usize(self.hf_count_spec(text@)),
            text@.len() == 0 ==> r == 0,
    {
        if text.is_empty() {
            return 0;
        }
        let ghost gm = self.merges_tbl();
        let ghost gl = self.left_tbl();
        let ghost gr = self.right_tbl();
        let ghost gcps = self.cps_seq();
        let ghost bf = self.byte_fallback;
        let normalized = apply_normalizer(&self.normalizer, text);
        let chunks = apply_pre_tokenizer(&self.pre_steps, normalized.as_str());
        let ghost gchunks = pre_tokenize_spec(self.pre_steps@, norm_spec(self.normalizer, text@));
        proof {
            assert(chunks@.map_values(|s: String| s@) == gchunks);
        }
        let mut total: usize = self.post_add as usize;
        let ghost mut acc: int = self.post_add as int;
        let mut k: usize = 0;
        while k < chunks.len()
            invariant
                k <= chunks@.len(),
                chunks@.map_values(|s: String| s@) == gchunks,
                acc + sum_chunk_counts(gm, gl, gr, gcps, bf, gchunks, k as int) == self.post_add
                    + sum_chunk_counts(gm, gl, gr, gcps, bf, gchunks, 0),
                total as int == sat_usize(acc),
                acc >= 0,
            decreases chunks@.len() - k,
        {
            let ghost chunk_v = gchunks[k as int];
            proof {
                assert(chunks@[k as int]@ == chunk_v);
            }
            if !chunks[k].as_str().is_empty() {
                let c = self.bpe_count_chunk(chunks[k].as_str());
                total = total.saturating_add(c);
                proof {
                    acc = acc + c;
                }
            }
            k += 1;
        }
        proof {
            assert(sum_chunk_counts(gm, gl, gr, gcps, bf, gchunks, chunks@.len() as int) == 0);
        }
        total
    }
}

} // verus!

verus! {

pub const NORM_NONE: u8 = 0;

pub const NORM_REPLACE: u8 = 1;

pub const NORM_PREPEND: u8 = 2;

pub const NORM_NFC: u8 = 3;

pub const NORM_SEQUENCE: u8 = 4;

pub const STEP_SPLIT: u8 = 1;

pub const STEP_BYTE_LEVEL: u8 = 2;

/// A `u32 length | UTF-8 bytes` string record starts at `off`: the
/// header and body fit, and the body is valid UTF-8.
pub open spec fn lp_str_parses(data: Seq<u8>, off: int) -> bool {
    &&& 0 <= off
    &&& off + 4 <= data.len()
    &&& off + 4 + le32(data, off) <= data.len()
    &&& vstd::utf8::valid_utf8(data.subrange(off + 4, off + 4 + le32(data, off)))
}

/// Total length of the string record at `off`.
pub open spec fn lp_str_len(data: Seq<u8>, off: int) -> int {
    4 + le32(data, off)
}

/// The characters of the string record at `off`.
pub open spec fn lp_str_chars(data: Seq<u8>, off: int) -> Seq<char> {
    decode_utf8(data.subrange(off + 4, off + 4 + le32(data, off)))
}

/// Relies on std::str::from_utf8: accepts exactly valid UTF-8, and the
/// accepted slice's bytes are the input bytes.
#[verifier::external_body]
fn bytes_to_str(v: &[u8]) -> (r: Option<&str>)
    ensures
        r.is_some() == vstd::utf8::valid_utf8(v@),
        r.is_some() ==> encode_utf8(r.unwrap()@) == v@,
{
    std::str::from_utf8(v).ok()
}

/// Reads a `u32 length | UTF-8 bytes` string starting at `off`:
/// succeeds exactly when a record fits there with a valid UTF-8 body.
pub fn read_length_prefixed_str(data: &[u8], off: usize) -> (r: Result<(String, usize), String>)
    ensures
        r.is_ok() == lp_str_parses(data@, off as int),
        r.is_ok() ==> {
            let (s, used) = r.unwrap();
            &&& used == lp_str_len(data@, off as int)
            &&& off + used <= data@.len()
            &&& s@ == lp_str_chars(data@, off as int)
            &&& encode_utf8(s@) == data@.subrange(off + 4, off + used)
        },
{
    let dl = data.len();
    if off > dl || dl - off < 4 {
        return Err(String::from_str("truncated string header in frozen blob"));
    }
    let len = crate::frozen::read_u32(data, off) as usize;
    if dl - off - 4 < len {
        return Err(String::from_str("truncated string in frozen blob"));
    }
    let bytes = vstd::slice::slice_subrange(data, off + 4, off + 4 + len);
    match bytes_to_str(bytes) {
        Some(s) => {
            proof {
                vstd::utf8::encode_utf8_decode_utf8(s@);
                vstd::utf8::decode_utf8_encode_utf8(bytes@);
            }
            Ok((s.to_owned(), 4 + len))
        },
        None => Err(String::from_str("invalid UTF-8 in frozen blob")),
    }
}

/// Reads a serialized normalizer tree starting at `off`.
///
/// Consumes at least one byte on success; rejects unknown tags and
/// truncated input.
#[verifier::loop_isolation(false)]
pub fn deserialize_normalizer(data: &[u8], off: usize) -> (r: Result<(Normalizer, usize), String>)
    ensures
        r.is_ok() == parse_norm(data@, off as int).is_some(),
        r.is_ok() ==> {
            let (n, used) = r.unwrap();
            &&& parse_norm(data@, off as int) == Some((norm_view(n), used as int))
            &&& 1 <= used
            &&& off + used <= data@.len()
        },
    decreases data@.len() - off,
{
    let dl = data.len();
    if off >= dl {
        return Err(String::from_str("truncated normalizer in frozen blob"));
    }
    let tag = data[off];
    let pos0 = off + 1;
    if tag == NORM_NONE {
        Ok((Normalizer::Identity, 1))
    } else if tag == NORM_REPLACE {
        let (pattern, len1) = match read_length_prefixed_str(data, pos0) {
            Ok(v) => v,
            Err(e) => {
                return Err(e);
            },
        };
        let (content, len2) = match read_length_prefixed_str(data, pos0 + len1) {
            Ok(v) => v,
            Err(e) => {
                return Err(e);
            },
        };
        Ok((Normalizer::Replace { pattern, content }, 1 + len1 + len2))
    } else if tag == NORM_PREPEND {
        let (prefix, len) = match read_length_prefixed_str(data, pos0) {
            Ok(v) => v,
            Err(e) => {
                return Err(e);
            },
        };
        Ok((Normalizer::Prepend(prefix), 1 + len))
    } else if tag == NORM_NFC {
        Ok((Normalizer::Nfc, 1))
    } else if tag == NORM_SEQUENCE {
        if dl - pos0 < 4 {
            return Err(String::from_str("truncated normalizer list in frozen blob"));
        }
        let count = crate::frozen::read_u32(data, pos0) as usize;
        let ghost list_start: int = off + 5;
        let mut pos = pos0 + 4;
        let mut norms: Vec<Normalizer> = Vec::new();
        let mut c: usize = 0;
        proof {
            assert(norm_views(norms@, 0) =~= Seq::<NormView>::empty());
            assert(parse_norm_list(data@, list_start, count as int) matches Some((vs, end))
                ==> Some((norm_views(norms@, 0) + vs, end)) == parse_norm_list(
                data@,
                list_start,
                count as int,
            )) by {
                if parse_norm_list(data@, list_start, count as int) is Some {
                    let (vs, end) = parse_norm_list(data@, list_start, count as int).unwrap();
                    assert(norm_views(norms@, 0) + vs =~= vs);
                }
            }
        }
        while c < count
            invariant
                off + 5 <= pos <= dl,
                dl == data@.len(),
                c <= count,
                norms@.len() == c,
                list_start == off + 5,
                ({
                    match parse_norm_list(data@, pos as int, count - c) {
                        Some((vs, end)) => parse_norm_list(data@, list_start, count as int)
                            == Some((norm_views(norms@, 0) + vs, end)),
                        None => parse_norm_list(data@, list_start, count as int).is_none(),
                    }
                }),
            decreases count - c,
        {
            let ghost norms_before = norms@;
            let (n, len) = match deserialize_normalizer(data, pos) {
                Ok(v) => v,
                Err(e) => {
                    proof {
                        assert(parse_norm_list(data@, pos as int, count - c).is_none());
                        assert(parse_norm_list(data@, list_start, count as int).is_none());
                        assert(count as int == le32(data@, off + 1) as int);
                        assert(off + 5 <= data@.len());
                        assert(parse_norm(data@, off as int).is_none());
                    }
                    return Err(e);
                },
            };
            proof {
                lemma_parse_norm_bounds(data@, pos as int);
                assert(parse_norm_list(data@, pos as int, count - c) matches Some((vs, end))
                    ==> parse_norm_list(data@, pos + len, count - c - 1) matches Some(
                    (vs2, end2),
                ) && vs == seq![norm_view(n)] + vs2 && end == end2);
            }
            pos = pos + len;
            norms.push(n);
            proof {
                lemma_norm_views_push(norms_before, n, 0);
                if parse_norm_list(data@, pos as int, count - c - 1) is Some {
                    let (vs2, end2) = parse_norm_list(data@, pos as int, count - c - 1).unwrap();
                    assert(norm_views(norms_before, 0) + (seq![norm_view(n)] + vs2)
                        =~= norm_views(norms@, 0) + vs2);
                }
            }
            c += 1;
        }
        proof {
            assert(parse_norm_list(data@, pos as int, 0) == Some(
                (Seq::<NormView>::empty(), pos as int),
            ));
            assert(norm_views(norms@, 0) + Seq::<NormView>::empty() =~= norm_views(norms@, 0));
            assert(parse_norm_list(data@, list_start, count as int) == Some(
                (norm_views(norms@, 0), pos as int),
            ));
            lemma_norm_views_len(norms@, 0);
        }
        if norms.is_empty() {
            Ok((Normalizer::Identity, pos - off))
        } else {
            Ok((Normalizer::Sequence(norms), pos - off))
        }
    } else {
        Err(String::from_str("unknown normalizer tag in frozen blob"))
    }
}

/// Reads the serialized pre-tokenizer step list starting at `off`,
/// compiling each Split pattern.  Succeeds exactly when the encoding is
/// well formed and every Split pattern compiles.
#[verifier::loop_isolation(false)]
pub fn deserialize_pre_tokenizer(data: &[u8], off: usize) -> (r: Result<
    (Vec<PreStep>, usize),
    String,
>)
    ensures
        r.is_ok() == parse_pre_tokenizer(data@, off as int).is_some(),
        r.is_ok() ==> {
            let (steps, used) = r.unwrap();
            &&& parse_pre_tokenizer(data@, off as int) == Some((step_views(steps@, 0), used as int))
            &&& 4 <= used
            &&& off + used <= data@.len()
            &&& forall|i: int| 0 <= i < steps@.len() ==> step_wf(#[trigger] steps@[i])
        },
{
    let dl = data.len();
    if off > dl || dl - off < 4 {
        return Err(String::from_str("truncated pre-tokenizer in frozen blob"));
    }
    let step_count = crate::frozen::read_u32(data, off) as usize;
    let mut pos = off + 4;
    let mut steps: Vec<PreStep> = Vec::new();
    let mut c: usize = 0;
    proof {
        assert(step_views(steps@, 0) =~= Seq::<StepView>::empty());
        if parse_steps(data@, pos as int, step_count as int) is Some {
            let (vs, e2) = parse_steps(data@, pos as int, step_count as int).unwrap();
            assert(step_views(steps@, 0) + vs =~= vs);
        }
    }
    while c < step_count
        invariant
            off + 4 <= pos <= dl,
            c <= step_count,
            steps@.len() == c,
            forall|i: int| 0 <= i < steps@.len() ==> step_wf(#[trigger] steps@[i]),
            ({
                match parse_steps(data@, pos as int, step_count - c) {
                    Some((vs, end)) => parse_steps(data@, off + 4, step_count as int) == Some(
                        (step_views(steps@, 0) + vs, end),
                    ),
                    None => parse_steps(data@, off + 4, step_count as int).is_none(),
                }
            }),
        decreases step_count - c,
    {
        let ghost steps_before = steps@;
        if pos >= dl {
            return Err(String::from_str("truncated pre-tokenizer step in frozen blob"));
        }
        let step_tag = data[pos];
        if step_tag == STEP_SPLIT {
            let (pattern, len) = match read_length_prefixed_str(data, pos + 1) {
                Ok(v) => v,
                Err(e) => {
                    return Err(e);
                },
            };
            let re = match CompiledRegex::new(pattern.as_str()) {
                Some(re) => re,
                None => {
                    return Err(String::from_str("invalid pre-tokenizer regex"));
                },
            };
            proof {
                assert(parse_steps(data@, pos as int, step_count - c) matches Some((vs, end))
                    ==> parse_steps(data@, pos + 1 + len, step_count - c - 1) matches Some(
                    (vs2, e2),
                ) && vs == seq![StepView::Split(pattern@)] + vs2 && end == e2);
            }
            pos = pos + 1 + len;
            steps.push(PreStep::Split(re));
            proof {
                lemma_step_views_push(steps_before, steps@[c as int], 0);
                if parse_steps(data@, pos as int, step_count - c - 1) is Some {
                    let (vs2, e2) = parse_steps(data@, pos as int, step_count - c - 1).unwrap();
                    assert(step_views(steps_before, 0) + (seq![StepView::Split(pattern@)] + vs2)
                        =~= step_views(steps@, 0) + vs2);
                }
            }
        } else if step_tag == STEP_BYTE_LEVEL {
            let table = byte_level::byte_to_char_table();
            proof {
                assert(parse_steps(data@, pos as int, step_count - c) matches Some((vs, end))
                    ==> parse_steps(data@, pos + 1, step_count - c - 1) matches Some((vs2, e2))
                    && vs == seq![StepView::ByteLevel] + vs2 && end == e2);
            }
            pos = pos + 1;
            steps.push(PreStep::ByteLevel { table });
            proof {
                lemma_step_views_push(steps_before, steps@[c as int], 0);
                if parse_steps(data@, pos as int, step_count - c - 1) is Some {
                    let (vs2, e2) = parse_steps(data@, pos as int, step_count - c - 1).unwrap();
                    assert(step_views(steps_before, 0) + (seq![StepView::ByteLevel] + vs2)
                        =~= step_views(steps@, 0) + vs2);
                }
            }
        } else {
            return Err(String::from_str("unknown pre-tokenizer step tag in frozen blob"));
        }
        c += 1;
    }
    proof {
        assert(parse_steps(data@, pos as int, 0) == Some((Seq::<StepView>::empty(), pos as int)));
        assert(step_views(steps@, 0) + Seq::<StepView>::empty() =~= step_views(steps@, 0));
    }
    Ok((steps, pos - off))
}

impl HfTokenizer {
    /// Loads a tokenizer from its frozen blob.
    ///
    /// Checks the structure: header, normalizer, pre-tokenizer, sorted
    /// code-point list, and three frozen tables whose declared sizes fill
    /// the rest of the blob.  The probe-level well-formedness of the
    /// tables themselves is the builder's contract, not re-checked here.
    #[verifier::loop_isolation(false)]
    pub fn from_frozen(data: Vec<u8>) -> (r: Result<HfTokenizer, String>)
        ensures
            r.is_ok() == hf_blob_parses(data@),
            r.is_ok() ==> {
                let tok = r.unwrap();
                &&& tok.data@ == data@
                &&& tok.byte_fallback == (data@[0] != 0)
                &&& tok.post_add == le32(data@, 1)
                &&& parse_norm(data@, 5) == Some(
                    (norm_view(tok.normalizer), hf_norm_end(data@) - 5),
                )
                &&& parse_pre_tokenizer(data@, hf_norm_end(data@)) == Some(
                    (step_views(tok.pre_steps@, 0), hf_pre_end(data@) - hf_norm_end(data@)),
                )
                &&& tok.vocab_count as int == hf_cp_count(data@)
                &&& tok.vocab_off as int == hf_vocab_off(data@)
                &&& tok.merges_off as int == hf_merges_off(data@)
                &&& tok.merge_left_off as int == hf_left_off(data@)
                &&& tok.merge_right_off as int == hf_right_off(data@)
                &&& tok.vocab_off + 4 * tok.vocab_count <= tok.merges_off
                &&& tok.merges_off <= tok.merge_left_off
                &&& tok.merge_left_off <= tok.merge_right_off
                &&& tok.merge_right_off <= data@.len()
                &&& cps_sorted(tok.cps_seq())
                &&& (forall|i: int|
                    0 <= i < tok.pre_steps@.len() ==> step_wf(#[trigger] tok.pre_steps@[i]))
            },
    {
        let dl = data.len();
        if dl < 5 {
            return Err(String::from_str("frozen blob too short"));
        }
        let byte_fallback = data[0] != 0;
        let post_add = crate::frozen::read_u32(data.as_slice(), 1);
        let mut off: usize = 5;
        let (normalizer, norm_len) = match deserialize_normalizer(data.as_slice(), off) {
            Ok(v) => v,
            Err(e) => {
                return Err(e);
            },
        };
        off = off + norm_len;
        proof {
            assert(off as int == hf_norm_end(data@));
        }
        let (pre_steps, pt_len) = match deserialize_pre_tokenizer(data.as_slice(), off) {
            Ok(v) => v,
            Err(e) => {
                return Err(e);
            },
        };
        off = off + pt_len;
        proof {
            assert(off as int == hf_pre_end(data@));
        }
        if dl - off < 4 {
            return Err(String::from_str("truncated code-point list in frozen blob"));
        }
        let vocab_count = crate::frozen::read_u32(data.as_slice(), off) as usize;
        off = off + 4;
        let vocab_off = off;
        let ghost rem: int = dl as int - off as int;
        let ghost cnt: int = vocab_count as int;
        proof {
            assert((rem / 4 < cnt) == (rem < 4 * cnt)) by (nonlinear_arith)
                requires
                    rem >= 0,
                    cnt >= 0,
            ;
        }
        if (dl - off) / 4 < vocab_count {
            return Err(String::from_str("truncated code-point list in frozen blob"));
        }
        off = off + 4 * vocab_count;
        let mut s: usize = 1;
        while s < vocab_count
            invariant
                1 <= s,
                vocab_off + 4 * vocab_count <= dl,
                dl == data@.len(),
                forall|i: int, j: int|
                    0 <= i < j < s ==> #[trigger] le32(data@, vocab_off + 4 * i)
                        < #[trigger] le32(data@, vocab_off + 4 * j),
            decreases vocab_count - s,
        {
            let prev = crate::frozen::read_u32(data.as_slice(), vocab_off + 4 * (s - 1));
            let cur = crate::frozen::read_u32(data.as_slice(), vocab_off + 4 * s);
            if prev >= cur {
                proof {
                    assert(vocab_off as int == hf_vocab_off(data@));
                    assert(vocab_count as int == hf_cp_count(data@));
                    let cps = Seq::new(
                        hf_cp_count(data@) as nat,
                        |i: int| le32(data@, hf_vocab_off(data@) + 4 * i),
                    );
                    if cps_sorted(cps) {
                        assert(cps[s - 1] < cps[s as int]);
                        assert(false);
                    }
                }
                return Err(String::from_str("unsorted code-point list in frozen blob"));
            }
            proof {
                assert forall|i: int, j: int|
                    0 <= i < j < s + 1 implies #[trigger] le32(data@, vocab_off + 4 * i)
                    < #[trigger] le32(data@, vocab_off + 4 * j) by {
                    if j == s && i < s - 1 {
                        assert(le32(data@, vocab_off + 4 * i) < le32(
                            data@,
                            vocab_off + 4 * (s - 1),
                        ));
                    }
                }
            }
            s += 1;
        }
        let merges_off = off;
        let merges_size = match table_extent(data.as_slice(), off, 18) {
            Some(v) => v,
            None => {
                return Err(String::from_str("truncated merges map in frozen blob"));
            },
        };
        off = off + merges_size;
        let merge_left_off = off;
        let left_size = match table_extent(data.as_slice(), off, 14) {
            Some(v) => v,
            None => {
                return Err(String::from_str("truncated merge-left set in frozen blob"));
            },
        };
        off = off + left_size;
        let merge_right_off = off;
        let right_size = match table_extent(data.as_slice(), off, 14) {
            Some(v) => v,
            None => {
                return Err(String::from_str("truncated merge-right set in frozen blob"));
            },
        };
        let tok = HfTokenizer {
            data,
            byte_fallback,
            post_add,
            normalizer,
            pre_steps,
            vocab_off,
            vocab_count,
            merges_off,
            merge_left_off,
            merge_right_off,
        };
        proof {
            assert(tok.cps_seq() =~= Seq::new(
                vocab_count as nat,
                |i: int| le32(tok.data@, vocab_off + 4 * i),
            ));
        }
        Ok(tok)
    }
}

/// The declared byte size of the frozen table starting at `off`, if its
/// header and that many bytes fit in `data`.
fn table_extent(data: &[u8], off: usize, slot_size: usize) -> (r: Option<usize>)
    requires
        1 <= slot_size <= 18,
    ensures
        r.is_some() == ext_ok(data@, off as int, slot_size as int),
        r.is_some() ==> off + r.unwrap() <= data@.len() && r.unwrap() >= 12 && r.unwrap() as int
            == ext_len(data@, off as int, slot_size as int),
{
    let dl = data.len();
    if off > dl || dl - off < 12 {
        return None;
    }
    let num_slots = crate::frozen::read_u32(data, off) as u64;
    let pool_len = crate::frozen::read_u32(data, off + 8) as u64;
    proof {
        assert((num_slots as int) * (slot_size as int) <= 0xFFFF_FFFF * 18) by (nonlinear_arith)
            requires
                num_slots <= 0xFFFF_FFFFu64,
                slot_size <= 18,
        ;
    }
    let size: u64 = 12 + num_slots * (slot_size as u64) + pool_len;
    if size > (dl - off) as u64 {
        return None;
    }
    Some(size as usize)
}

} // verus!

verus! {

/// The plain (unwindowed) merge count of a chunk's initial tokens.
pub open spec fn bpe_count_spec_of_chunk(
    merges: Seq<u8>,
    cps: Seq<u32>,
    bf: bool,
    chunk: Seq<char>,
) -> int {
    crate::merge::bpe_count_spec(merges, initial_tokens_spec(cps, bf, chunk, 0), true)
}

} // verus!

verus! {

/// The abstract shape of a normalizer tree: what the blob encodes.
pub enum NormView {
    Identity,
    Replace { pattern: Seq<char>, content: Seq<char> },
    Prepend(Seq<char>),
    Nfc,
    Sequence(Seq<NormView>),
}

/// The abstract shape of a normalizer value.
pub open spec fn norm_view(n: Normalizer) -> NormView
    decreases n,
{
    match n {
        Normalizer::Identity => NormView::Identity,
        Normalizer::Replace { pattern, content } => NormView::Replace {
            pattern: pattern@,
            content: content@,
        },
        Normalizer::Prepend(p) => NormView::Prepend(p@),
        Normalizer::Nfc => NormView::Nfc,
        Normalizer::Sequence(ns) => NormView::Sequence(norm_views(ns@, 0)),
    }
}

/// The abstract shapes of the normalizers from index `i` on.
pub open spec fn norm_views(ns: Seq<Normalizer>, i: int) -> Seq<NormView>
    decreases ns, ns.len() - i,
{
    if i < 0 || i >= ns.len() {
        Seq::empty()
    } else {
        seq![norm_view(ns[i])] + norm_views(ns, i + 1)
    }
}

/// The normalizer encoding that starts at `off`, with the number of
/// bytes it occupies — `None` when no well-formed encoding starts there.
/// A `Sequence` with zero children decodes as `Identity`, as the loader
/// collapses it.
pub open spec fn parse_norm(data: Seq<u8>, off: int) -> Option<(NormView, int)>
    decreases data.len() - off, 0int,
{
    if off < 0 || off >= data.len() {
        None
    } else {
        let tag = data[off];
        if tag == NORM_NONE {
            Some((NormView::Identity, 1))
        } else if tag == NORM_REPLACE {
            if lp_str_parses(data, off + 1) {
                let u1 = lp_str_len(data, off + 1);
                if lp_str_parses(data, off + 1 + u1) {
                    let u2 = lp_str_len(data, off + 1 + u1);
                    Some(
                        (
                            NormView::Replace {
                                pattern: lp_str_chars(data, off + 1),
                                content: lp_str_chars(data, off + 1 + u1),
                            },
                            1 + u1 + u2,
                        ),
                    )
                } else {
                    None
                }
            } else {
                None
            }
        } else if tag == NORM_PREPEND {
            if lp_str_parses(data, off + 1) {
                Some((NormView::Prepend(lp_str_chars(data, off + 1)), 1 + lp_str_len(data, off + 1)))
            } else {
                None
            }
        } else if tag == NORM_NFC {
            Some((NormView::Nfc, 1))
        } else if tag == NORM_SEQUENCE {
            if off + 5 <= data.len() {
                let count = le32(data, off + 1) as int;
                match parse_norm_list(data, off + 5, count) {
                    None => None,
                    Some((vs, end)) => if vs.len() == 0 {
                        Some((NormView::Identity, end - off))
                    } else {
                        Some((NormView::Sequence(vs), end - off))
                    },
                }
            } else {
                None
            }
        } else {
            None
        }
    }
}

/// `count` consecutive normalizer encodings from `off` on; `end` is the
/// absolute offset just past the last one.
pub open spec fn parse_norm_list(data: Seq<u8>, off: int, count: int) -> Option<
    (Seq<NormView>, int),
>
    decreases data.len() - off, 1int,
{
    if count <= 0 {
        Some((Seq::empty(), off))
    } else if off < 0 || off >= data.len() {
        None
    } else {
        match parse_norm(data, off) {
            None => None,
            Some((v, used)) => {
                let adv = if 1 <= used && off + used <= data.len() {
                    used
                } else {
                    1int
                };
                match parse_norm_list(data, off + adv, count - 1) {
                    None => None,
                    Some((vs, end)) => Some((seq![v] + vs, end)),
                }
            },
        }
    }
}

/// A parsed normalizer occupies at least one byte and stays in bounds.
pub proof fn lemma_parse_norm_bounds(data: Seq<u8>, off: int)
    ensures
        parse_norm(data, off).is_some() ==> {
            let used = parse_norm(data, off).unwrap().1;
            1 <= used && off + used <= data.len()
        },
    decreases data.len() - off, 0int,
{
    if 0 <= off < data.len() {
        let tag = data[off];
        if tag == NORM_SEQUENCE && off + 5 <= data.len() {
            let count = le32(data, off + 1) as int;
            lemma_parse_norm_list_bounds(data, off + 5, count);
        }
    }
}

/// A parsed normalizer list never moves backwards and stays in bounds.
pub proof fn lemma_parse_norm_list_bounds(data: Seq<u8>, off: int, count: int)
    ensures
        parse_norm_list(data, off, count).is_some() ==> {
            let end = parse_norm_list(data, off, count).unwrap().1;
            off <= end && (count > 0 ==> off < end && end <= data.len())
        },
        parse_norm_list(data, off, count).is_some() ==> parse_norm_list(
            data,
            off,
            count,
        ).unwrap().0.len() == (if count <= 0 {
            0int
        } else {
            count
        }),
    decreases data.len() - off, 1int,
{
    if count <= 0 {
    } else if 0 <= off < data.len() {
        match parse_norm(data, off) {
            None => {},
            Some((v, used)) => {
                lemma_parse_norm_bounds(data, off);
                let adv = if 1 <= used && off + used <= data.len() {
                    used
                } else {
                    1int
                };
                lemma_parse_norm_list_bounds(data, off + adv, count - 1);
            },
        }
    }
}

/// Appending a normalizer appends its shape.
pub proof fn lemma_norm_views_push(ns: Seq<Normalizer>, x: Normalizer, i: int)
    requires
        0 <= i <= ns.len(),
    ensures
        norm_views(ns.push(x), i) == norm_views(ns, i) + seq![norm_view(x)],
    decreases ns.len() - i,
{
    if i < ns.len() {
        lemma_norm_views_push(ns, x, i + 1);
        assert(ns.push(x)[i] == ns[i]);
        assert(seq![norm_view(ns[i])] + (norm_views(ns, i + 1) + seq![norm_view(x)])
            =~= (seq![norm_view(ns[i])] + norm_views(ns, i + 1)) + seq![norm_view(x)]);
    } else {
        assert(ns.push(x)[i] == x);
        assert(norm_views(ns.push(x), i + 1) =~= Seq::<NormView>::empty());
        assert(norm_views(ns, i) =~= Seq::<NormView>::empty());
        assert(seq![norm_view(x)] + Seq::<NormView>::empty() =~= Seq::<NormView>::empty()
            + seq![norm_view(x)]);
    }
}

/// The shape list has one entry per normalizer (re-exported name).
pub proof fn lemma_norm_views_len_pub(ns: Seq<Normalizer>, i: int)
    requires
        0 <= i <= ns.len(),
    ensures
        norm_views(ns, i).len() == ns.len() - i,
{
    lemma_norm_views_len(ns, i);
}

/// Bounds of a successful parse (re-exported name).
pub proof fn lemma_parse_norm_bounds_pub(data: Seq<u8>, off: int)
    ensures
        parse_norm(data, off).is_some() ==> {
            let used = parse_norm(data, off).unwrap().1;
            1 <= used && off + used <= data.len()
        },
{
    lemma_parse_norm_bounds(data, off);
}

/// The shape list has one entry per normalizer.
pub proof fn lemma_norm_views_len(ns: Seq<Normalizer>, i: int)
    requires
        0 <= i <= ns.len(),
    ensures
        norm_views(ns, i).len() == ns.len() - i,
    decreases ns.len() - i,
{
    if i < ns.len() {
        lemma_norm_views_len(ns, i + 1);
    }
}

} // verus!

verus! {

/// The abstract shape of a pre-tokenizer step.
pub enum StepView {
    Split(Seq<char>),
    ByteLevel,
}

/// The abstract shape of a step value.
pub open spec fn step_view(s: PreStep) -> StepView {
    match s {
        PreStep::Split(re) => StepView::Split(re.pattern@),
        PreStep::ByteLevel { .. } => StepView::ByteLevel,
    }
}

/// The abstract shapes of the steps from index `i` on.
pub open spec fn step_views(ss: Seq<PreStep>, i: int) -> Seq<StepView>
    decreases ss.len() - i,
{
    if i < 0 || i >= ss.len() {
        Seq::empty()
    } else {
        seq![step_view(ss[i])] + step_views(ss, i + 1)
    }
}

/// `count` consecutive step encodings from `off` on; a Split step also
/// requires its pattern to compile, as the loader rejects it otherwise.
pub open spec fn parse_steps(data: Seq<u8>, off: int, count: int) -> Option<(Seq<StepView>, int)>
    decreases count,
{
    if count <= 0 {
        Some((Seq::empty(), off))
    } else if off < 0 || off >= data.len() {
        None
    } else {
        let tag = data[off];
        if tag == STEP_SPLIT {
            if lp_str_parses(data, off + 1) && crate::matcher::regex_compiles(
                lp_str_chars(data, off + 1),
            ) {
                match parse_steps(data, off + 1 + lp_str_len(data, off + 1), count - 1) {
                    None => None,
                    Some((vs, end)) => Some(
                        (seq![StepView::Split(lp_str_chars(data, off + 1))] + vs, end),
                    ),
                }
            } else {
                None
            }
        } else if tag == STEP_BYTE_LEVEL {
            match parse_steps(data, off + 1, count - 1) {
                None => None,
                Some((vs, end)) => Some((seq![StepView::ByteLevel] + vs, end)),
            }
        } else {
            None
        }
    }
}

/// The pre-tokenizer encoding at `off`: a step count, then that many
/// steps; the result carries the bytes consumed.
pub open spec fn parse_pre_tokenizer(data: Seq<u8>, off: int) -> Option<(Seq<StepView>, int)> {
    if 0 <= off && off + 4 <= data.len() {
        match parse_steps(data, off + 4, le32(data, off) as int) {
            None => None,
            Some((vs, end)) => Some((vs, end - off)),
        }
    } else {
        None
    }
}


/// Appending a step appends its shape.
pub proof fn lemma_step_views_push(ss: Seq<PreStep>, x: PreStep, i: int)
    requires
        0 <= i <= ss.len(),
    ensures
        step_views(ss.push(x), i) == step_views(ss, i) + seq![step_view(x)],
    decreases ss.len() - i,
{
    if i < ss.len() {
        lemma_step_views_push(ss, x, i + 1);
        assert(ss.push(x)[i] == ss[i]);
        assert(seq![step_view(ss[i])] + (step_views(ss, i + 1) + seq![step_view(x)])
            =~= (seq![step_view(ss[i])] + step_views(ss, i + 1)) + seq![step_view(x)]);
    } else {
        assert(ss.push(x)[i] == x);
        assert(step_views(ss.push(x), i + 1) =~= Seq::<StepView>::empty());
        assert(step_views(ss, i) =~= Seq::<StepView>::empty());
        assert(seq![step_view(x)] + Seq::<StepView>::empty() =~= Seq::<StepView>::empty()
            + seq![step_view(x)]);
    }
}

} // verus!

verus! {

/// A frozen table header fits at `off` and declares a size that fits.
pub open spec fn ext_ok(data: Seq<u8>, off: int, ss: int) -> bool {
    &&& 0 <= off
    &&& off + 12 <= data.len()
    &&& off + 12 + le32(data, off) * ss + le32(data, off + 8) <= data.len()
}

/// The declared byte size of the frozen table at `off`.
pub open spec fn ext_len(data: Seq<u8>, off: int, ss: int) -> int {
    12 + le32(data, off) * ss + le32(data, off + 8)
}

/// Offset just past the serialized normalizer.
pub open spec fn hf_norm_end(data: Seq<u8>) -> int {
    5 + parse_norm(data, 5).unwrap().1
}

/// Offset just past the serialized pre-tokenizer.
pub open spec fn hf_pre_end(data: Seq<u8>) -> int {
    hf_norm_end(data) + parse_pre_tokenizer(data, hf_norm_end(data)).unwrap().1
}

/// Number of single-code-point vocabulary entries the blob declares.
pub open spec fn hf_cp_count(data: Seq<u8>) -> int {
    le32(data, hf_pre_end(data)) as int
}

/// Offset of the code-point list.
pub open spec fn hf_vocab_off(data: Seq<u8>) -> int {
    hf_pre_end(data) + 4
}

/// Offset of the merges map.
pub open spec fn hf_merges_off(data: Seq<u8>) -> int {
    hf_vocab_off(data) + 4 * hf_cp_count(data)
}

/// Offset of the merge-left-sides set.
pub open spec fn hf_left_off(data: Seq<u8>) -> int {
    hf_merges_off(data) + ext_len(data, hf_merges_off(data), 18)
}

/// Offset of the merge-right-sides set.
pub open spec fn hf_right_off(data: Seq<u8>) -> int {
    hf_left_off(data) + ext_len(data, hf_left_off(data), 14)
}

/// The whole frozen HF tokenizer blob is well formed: header, normalizer
/// and pre-tokenizer encodings parse (with compiling Split patterns), the
/// code-point list fits and is strictly ascending, and the three frozen
/// tables declare sizes that fit the remaining bytes.
pub open spec fn hf_blob_parses(data: Seq<u8>) -> bool {
    &&& data.len() >= 5
    &&& parse_norm(data, 5).is_some()
    &&& parse_pre_tokenizer(data, hf_norm_end(data)).is_some()
    &&& hf_pre_end(data) + 4 <= data.len()
    &&& hf_vocab_off(data) + 4 * hf_cp_count(data) <= data.len()
    &&& cps_sorted(
        Seq::new(hf_cp_count(data) as nat, |i: int| le32(data, hf_vocab_off(data) + 4 * i)),
    )
    &&& ext_ok(data, hf_merges_off(data), 18)
    &&& ext_ok(data, hf_left_off(data), 14)
    &&& ext_ok(data, hf_right_off(data), 14)
}

} // verus!
