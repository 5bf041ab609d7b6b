use tokencount::builder::{build_trie, trie_to_blob};
use tokencount::claude::DATrie;

fn vocab(words: &[&str]) -> Vec<Vec<u8>> {
    words.iter().map(|w| w.as_bytes().to_vec()).collect()
}

fn small_trie() -> DATrie {
    build_trie(&vocab(&["a", "ab", "abc", "b"])).expect("trie build")
}

#[test]
fn greedy_longest_match() {
    let t = small_trie();
    assert_eq!(t.count_tokens("abcb"), 2);
    assert_eq!(t.count_tokens("abx"), 2);
}

#[test]
fn single_vocab_token_counts_one() {
    let t = small_trie();
    assert_eq!(t.count_tokens("ab"), 1);
    assert_eq!(t.count_tokens("abc"), 1);
    assert_eq!(t.count_tokens("a"), 1);
    assert_eq!(t.count_tokens("b"), 1);
}

#[test]
fn one_byte_input_counts_one() {
    let t = small_trie();
    assert_eq!(t.count_tokens("z"), 1);
    assert_eq!(t.count_tokens("a"), 1);
}

#[test]
fn empty_input_counts_zero() {
    let t = small_trie();
    assert_eq!(t.count_tokens(""), 0);
}

#[test]
fn count_never_exceeds_byte_length() {
    let t = small_trie();
    let text = "abcabcababxxba";
    assert!(t.count_tokens(text) <= text.len());
    let uni = "héllo wörld";
    assert!(t.count_tokens(uni) <= uni.len());
}

#[test]
fn blob_roundtrip_preserves_counts() {
    let t = small_trie();
    let blob = trie_to_blob(&t);
    let t2 = DATrie::new(&blob);
    for text in ["", "a", "ab", "abc", "abcb", "abx", "zzz", "abcabc"] {
        assert_eq!(t.count_tokens(text), t2.count_tokens(text));
    }
}

#[test]
fn vocabulary_tokens_accepted_whole() {
    let words = ["hello", "world", "he", "low", "or"];
    let t = build_trie(&vocab(&words)).expect("trie build");
    for w in words {
        assert_eq!(t.count_tokens(w), 1);
    }
}

#[test]
fn catenation_within_one() {
    let t = build_trie(&vocab(&["Hello", ", ", "world", "!"])).expect("trie build");
    let one = t.count_tokens("Hello, world!");
    let two = t.count_tokens("Hello, world!Hello, world!");
    assert!(two == 2 * one || two + 1 == 2 * one);
}

#[test]
fn out_of_vocabulary_bytes_step_one_at_a_time() {
    let t = small_trie();
    assert_eq!(t.count_tokens("xyz"), 3);
}
