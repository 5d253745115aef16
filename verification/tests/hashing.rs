//! Prefix-hash chains.

use std::hash::{DefaultHasher, Hash, Hasher};

use kvrouters::chain_hash;

#[test]
fn identical_prompts_produce_identical_chains() {
    let a = chain_hash("the same prompt text", 4);
    let b = chain_hash("the same prompt text", 4);
    assert_eq!(a, b);
    assert!(!a.is_empty());
}

#[test]
fn shared_prefix_produces_shared_chain_head() {
    let base = "once upon a time";
    let chain_base = chain_hash(base, 4);
    let chain_longer = chain_hash(&format!("{base} there was a cache"), 4);
    assert!(chain_longer.len() > chain_base.len());
    assert_eq!(&chain_longer[..chain_base.len()], &chain_base[..]);
}

#[test]
fn single_char_change_at_start_diverges_the_whole_chain() {
    // Same length, only the first character differs: h_0 differs, so every
    // subsequent h_i inherits a different predecessor and the chains share
    // nothing.
    let a = chain_hash("aaaaaaaaaaaaaaaa", 4);
    let b = chain_hash("baaaaaaaaaaaaaaa", 4);
    assert_eq!(a.len(), b.len());
    assert!(a.iter().zip(&b).all(|(x, y)| x != y));
}

#[test]
fn block_count_is_ceil_chars_over_block_size() {
    assert_eq!(chain_hash("12345", 2).len(), 3);
    assert_eq!(chain_hash("1234", 2).len(), 2);
    assert_eq!(chain_hash("abc", 512).len(), 1);
    assert_eq!(chain_hash("", 512).len(), 0);
}

#[test]
fn multi_byte_chars_count_as_single_characters() {
    // Four 4-byte UTF-8 characters with block size 2 => 2 blocks, not 8.
    assert_eq!(
        chain_hash("\u{1F600}\u{1F600}\u{1F600}\u{1F600}", 2).len(),
        2
    );
}

#[test]
fn zero_block_size_clamps_to_one() {
    let a = chain_hash("hello", 0);
    let b = chain_hash("hello", 1);
    assert_eq!(a, b);
}

/// One link computed with the `Hash` impls of the values.
fn link(previous: Option<u64>, block: &str) -> u64 {
    let chars: Vec<char> = block.chars().collect();
    let mut hasher = DefaultHasher::new();
    if let Some(hash) = previous {
        hash.hash(&mut hasher);
    }
    chars[..].hash(&mut hasher);
    hasher.finish()
}

#[test]
fn links_are_the_hashes_of_their_values() {
    let first = link(None, "ab");
    let second = link(Some(first), "c\u{1F600}");
    let third = link(Some(second), "e");
    assert_eq!(chain_hash("abc\u{1F600}e", 2), vec![first, second, third]);
}

#[test]
fn a_difference_in_the_middle_diverges_the_rest_only() {
    let a = chain_hash("aaaabbbbccccdddd", 4);
    let b = chain_hash("aaaabbXbccccdddd", 4);
    assert_eq!(a[0], b[0]);
    assert_ne!(a[1], b[1]);
    assert_ne!(a[2], b[2]);
    assert_ne!(a[3], b[3]);
}

#[test]
fn an_extended_prompt_keeps_its_full_blocks() {
    let short = chain_hash("aaaabb", 4);
    let long = chain_hash("aaaabbbb", 4);
    assert_eq!(short[0], long[0]);
    assert_ne!(short[1], long[1]);
}
