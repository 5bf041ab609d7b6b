use tokencount::bpe::{apply_normalizer, deserialize_normalizer, HfTokenizer, Normalizer};
use tokencount::byte_level::byte_to_char_table;
use tokencount::builder::{build_frozen_map, build_hf_blob, serialize_normalizer, StepDesc};
use tokencount::tiktoken::TiktokenTokenizer;

fn entries(list: &[(&[u8], u32)]) -> Vec<(Vec<u8>, u32)> {
    list.iter().map(|(k, v)| (k.to_vec(), *v)).collect()
}

fn keys(list: &[&[u8]]) -> Vec<Vec<u8>> {
    list.iter().map(|k| k.to_vec()).collect()
}

fn tiktoken(merges: &[(&[u8], u32)]) -> TiktokenTokenizer {
    let blob = build_frozen_map(&entries(merges));
    TiktokenTokenizer::new(blob).expect("o200k pattern compiles")
}

fn hf_blob(
    byte_fallback: bool,
    post_add: u32,
    normalizer: Normalizer,
    steps: Vec<StepDesc>,
    cps: Vec<u32>,
    merges: &[(&[u8], u32)],
    lefts: &[&[u8]],
    rights: &[&[u8]],
) -> HfTokenizer {
    let (blob, _offs) = build_hf_blob(
        byte_fallback,
        post_add,
        &normalizer,
        &steps,
        &cps,
        &entries(merges),
        &keys(lefts),
        &keys(rights),
    );
    HfTokenizer::from_frozen(blob).expect("frozen blob loads")
}

#[test]
fn openai_empty_single_letter_single_space() {
    let t = tiktoken(&[]);
    assert_eq!(t.count_tokens(""), 0);
    assert_eq!(t.count_tokens("a"), 1);
    assert_eq!(t.count_tokens(" "), 1);
}

#[test]
fn openai_digit_runs_capped_at_three() {
    let t = tiktoken(&[]);
    let n = t.count_tokens("1234");
    assert_eq!(n, 4);
    assert!(n >= 2);
}

#[test]
fn openai_two_byte_piece_without_merge() {
    let t = tiktoken(&[]);
    assert_eq!(t.count_tokens("ab"), 2);
}

#[test]
fn openai_merges_apply_by_rank() {
    let t = tiktoken(&[(b"ab", 0), (b"cd", 1), (b"abcd", 2)]);
    assert_eq!(t.count_tokens("ab"), 1);
    assert_eq!(t.count_tokens("abcd"), 1);
    assert_eq!(t.count_tokens("cdab"), 2);
}

#[test]
fn openai_whitespace_counts_through_pieces() {
    let t = tiktoken(&[]);
    assert_eq!(t.count_tokens("   "), 3);
    assert_eq!(t.count_tokens(" \n "), 3);
}

#[test]
fn openai_catenation_of_letter_runs() {
    let t = tiktoken(&[]);
    let a = t.count_tokens("ab");
    let b = t.count_tokens("cd");
    let joined = t.count_tokens("abcd");
    assert!((a + b) as i64 - joined as i64 <= 1);
    assert!(joined <= a + b);
}

#[test]
fn hf_empty_input_counts_zero() {
    let t = hf_blob(true, 0, Normalizer::Identity, vec![], vec![], &[], &[], &[]);
    assert_eq!(t.count_tokens(""), 0);
}

#[test]
fn hf_byte_fallback_four_byte_scalar() {
    let cps = vec!['a' as u32];
    let t = hf_blob(true, 0, Normalizer::Identity, vec![], cps, &[], &[], &[]);
    assert_eq!(t.count_tokens("\u{1F642}"), 4);
    assert_eq!(t.count_tokens("a"), 1);
}

#[test]
fn hf_pair_merges_and_post_add() {
    let cps = vec!['a' as u32, 'b' as u32];
    let t = hf_blob(
        true,
        0,
        Normalizer::Identity,
        vec![],
        cps.clone(),
        &[(b"a\x00b", 0)],
        &[b"a"],
        &[b"b"],
    );
    assert_eq!(t.count_tokens("ab"), 1);
    assert_eq!(t.count_tokens("ba"), 2);
    let t2 = hf_blob(
        true,
        2,
        Normalizer::Identity,
        vec![],
        cps,
        &[(b"a\x00b", 0)],
        &[b"a"],
        &[b"b"],
    );
    assert_eq!(t2.count_tokens("ab"), 3);
}

#[test]
fn hf_replace_normalizer() {
    let cps = vec!['a' as u32, 'b' as u32];
    let norm = Normalizer::Replace { pattern: "x".to_string(), content: "ab".to_string() };
    let t = hf_blob(true, 0, norm, vec![], cps, &[(b"a\x00b", 0)], &[b"a"], &[b"b"]);
    assert_eq!(t.count_tokens("x"), 1);
    assert_eq!(t.count_tokens("xx"), 2);
}

#[test]
fn hf_prepend_normalizer() {
    let cps = vec!['a' as u32, 'b' as u32];
    let norm = Normalizer::Prepend("a".to_string());
    let t = hf_blob(true, 0, norm, vec![], cps, &[(b"a\x00b", 0)], &[b"a"], &[b"b"]);
    assert_eq!(t.count_tokens("b"), 1);
}

#[test]
fn hf_nfc_normalizer_composes() {
    let cps = vec![0xE9u32];
    let norm = Normalizer::Nfc;
    let t = hf_blob(true, 0, norm, vec![], cps, &[], &[], &[]);
    assert_eq!(t.count_tokens("e\u{301}"), 1);
}

#[test]
fn hf_sequence_normalizer_runs_in_order() {
    let cps = vec!['a' as u32, 'b' as u32];
    let norm = Normalizer::Sequence(vec![
        Normalizer::Prepend("x".to_string()),
        Normalizer::Replace { pattern: "x".to_string(), content: "a".to_string() },
    ]);
    let t = hf_blob(true, 0, norm, vec![], cps, &[(b"a\x00b", 0)], &[b"a"], &[b"b"]);
    assert_eq!(t.count_tokens("b"), 1);
}

#[test]
fn hf_split_step_isolates_matches() {
    let cps = vec!['a' as u32, 'b' as u32, 'c' as u32];
    let steps = vec![StepDesc::Split("b".to_string())];
    let t = hf_blob(true, 0, Normalizer::Identity, steps, cps, &[], &[], &[]);
    assert_eq!(t.count_tokens("abc"), 3);
}

#[test]
fn hf_byte_level_step_remaps_bytes() {
    let steps = vec![StepDesc::ByteLevel];
    let t = hf_blob(false, 0, Normalizer::Identity, steps, vec![], &[], &[], &[]);
    assert_eq!(t.count_tokens("a b"), 3);
}

#[test]
fn hf_long_chunk_no_breakable_boundary() {
    let cps = vec!['a' as u32];
    let t = hf_blob(
        true,
        0,
        Normalizer::Identity,
        vec![],
        cps,
        &[(b"a\x00a", 0)],
        &[b"a"],
        &[b"a"],
    );
    let long: String = std::iter::repeat('a').take(600).collect();
    assert_eq!(t.count_tokens(&long), 300);
}

#[test]
fn hf_long_chunk_with_breakable_boundaries() {
    let cps = vec!['a' as u32, 'b' as u32];
    let t = hf_blob(
        true,
        0,
        Normalizer::Identity,
        vec![],
        cps,
        &[(b"a\x00b", 0)],
        &[b"a"],
        &[b"b"],
    );
    let long: String = "ab".repeat(300);
    assert_eq!(t.count_tokens(&long), 300);
    let short: String = "ab".repeat(200);
    assert_eq!(t.count_tokens(&short), 200);
}

#[test]
fn hf_from_frozen_rejects_garbage() {
    assert!(HfTokenizer::from_frozen(vec![]).is_err());
    assert!(HfTokenizer::from_frozen(vec![1, 0, 0, 0, 0, 99]).is_err());
}

#[test]
fn normalizer_serialization_roundtrip() {
    let norm = Normalizer::Sequence(vec![
        Normalizer::Prepend("pre".to_string()),
        Normalizer::Replace { pattern: "p".to_string(), content: "q".to_string() },
        Normalizer::Nfc,
    ]);
    let mut blob: Vec<u8> = Vec::new();
    serialize_normalizer(&mut blob, &norm);
    let (parsed, used) = deserialize_normalizer(&blob, 0).expect("parses back");
    assert_eq!(used, blob.len());
    for text in ["", "p", "pep", "abc"] {
        assert_eq!(apply_normalizer(&norm, text), apply_normalizer(&parsed, text));
    }
}

#[test]
fn byte_level_table_entries() {
    let table = byte_to_char_table();
    assert_eq!(table.len(), 256);
    assert_eq!(table[0x41], 'A');
    assert_eq!(table[0x7E], '~');
    assert_eq!(table[0x00], '\u{100}');
    assert_eq!(table[0x20], '\u{120}');
    assert_eq!(table[0x7F], '\u{121}');
    assert_eq!(table[0xAD], '\u{143}');
    assert_eq!(table[0xFF], '\u{FF}');
}

#[test]
fn invalid_split_pattern_is_rejected() {
    let steps = vec![StepDesc::Split("(".to_string())];
    let (blob, _offs) = build_hf_blob(
        false,
        0,
        &Normalizer::Identity,
        &steps,
        &vec![],
        &entries(&[]),
        &keys(&[]),
        &keys(&[]),
    );
    match HfTokenizer::from_frozen(blob) {
        Ok(_) => panic!("expected an invalid-regex error"),
        Err(e) => assert!(e.contains("regex")),
    }
}
