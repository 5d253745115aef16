//! The prefix index.

use std::hash::{DefaultHasher, Hash, Hasher};

use kvrouters::prefix::{prefix_hashes, tokenize};
use kvrouters::{EvictionStats, PrefixIndex};

#[test]
fn tokenizes_into_lowercase_words() {
    assert_eq!(tokenize("Hello, World!"), vec!["hello", "world"]);
    assert_eq!(
        tokenize("  mixed-CASE\tinput\n"),
        vec!["mixed", "case", "input"]
    );
    assert_eq!(tokenize(""), Vec::<String>::new());
}

#[test]
fn matched_length_grows_with_recording() {
    let mut index = PrefixIndex::default();
    let tokens = tokenize("the quick brown fox");

    assert_eq!(index.matched_prefix_len(0, &tokens), 0);
    index.record(0, &tokens);
    assert_eq!(index.matched_prefix_len(0, &tokens), 4);

    let longer = tokenize("the quick brown fox jumps");
    assert_eq!(index.matched_prefix_len(0, &longer), 4);
    index.record(0, &longer);
    assert_eq!(index.matched_prefix_len(0, &longer), 5);
}

#[test]
fn prefix_tracking_is_per_worker() {
    let mut index = PrefixIndex::default();
    let tokens = tokenize("cache aware routing");

    index.record(0, &tokens);
    assert_eq!(index.matched_prefix_len(0, &tokens), 3);
    assert_eq!(index.matched_prefix_len(1, &tokens), 0);
}

#[test]
fn partial_prefix_matches() {
    let mut index = PrefixIndex::default();
    index.record(0, &tokenize("the quick brown fox"));

    // Only the first two words overlap.
    let overlap = tokenize("the quick lazy dog");
    assert_eq!(index.matched_prefix_len(0, &overlap), 2);

    // No overlap at all.
    let none = tokenize("totally different prompt");
    assert_eq!(index.matched_prefix_len(0, &none), 0);
}

#[test]
fn tokenizing_knows_more_than_ascii() {
    assert_eq!(tokenize("ÄPFEL und Straße7"), vec!["äpfel", "und", "straße7"]);
    assert_eq!(tokenize("...!?"), Vec::<String>::new());
    assert_eq!(tokenize("one"), vec!["one"]);
}

#[test]
fn prefixes_hash_as_slices_of_strings() {
    let tokens = tokenize("cache aware routing");
    let expected: Vec<u64> = (1..=tokens.len())
        .map(|len| {
            let mut hasher = DefaultHasher::new();
            tokens[..len].hash(&mut hasher);
            hasher.finish()
        })
        .collect();
    assert_eq!(prefix_hashes(&tokens), expected);
}

#[test]
fn a_match_stops_at_the_first_gap() {
    let mut index = PrefixIndex::new();
    index.record_at(0, &[1, 2], 10);
    index.record_at(0, &[4], 10);
    assert_eq!(index.longest_match_at(0, &[1, 2, 3, 4], 11), 2);
    assert_eq!(index.longest_match(0, &[3, 4]), 0);
    assert_eq!(index.longest_match(0, &[]), 0);
    assert_eq!(index.longest_match(9, &[1]), 0);
}

#[test]
fn purging_a_worker_spares_the_others() {
    let mut index = PrefixIndex::new();
    index.record_at(0, &[1, 2, 3], 1);
    index.record_at(1, &[1, 2], 2);
    index.remove_worker(0);
    assert_eq!(index.longest_match(0, &[1, 2, 3]), 0);
    assert_eq!(index.longest_match(1, &[1, 2, 3]), 2);
    // Block 3 was held by nobody else, so its entry is gone.
    assert_eq!(index.len(), 2);
}

#[test]
fn eviction_drops_expired_entries_then_the_oldest() {
    let mut index = PrefixIndex::new();
    index.record_at(0, &[1], 100);
    index.record_at(0, &[2], 200);
    index.record_at(0, &[3], 300);
    index.record_at(0, &[4], 400);
    // Untouched for longer than 250 at time 400: only block 1.
    let stats = index.evict_at(400, 250, 2);
    assert_eq!(stats, EvictionStats { expired: 1, evicted: 1 });
    assert_eq!(index.len(), 2);
    assert_eq!(index.longest_match_at(0, &[2], 400), 0);
    assert_eq!(index.longest_match_at(0, &[3, 4], 400), 2);
}

#[test]
fn looking_a_block_up_keeps_it_alive() {
    let mut index = PrefixIndex::new();
    index.record_at(0, &[1, 2], 100);
    assert_eq!(index.longest_match_at(0, &[1], 500), 1);
    let stats = index.evict_at(600, 200, 100);
    assert_eq!(stats, EvictionStats { expired: 1, evicted: 0 });
    assert_eq!(index.longest_match_at(0, &[1], 600), 1);
    assert_eq!(index.longest_match_at(0, &[2], 600), 0);
}

#[test]
fn eviction_keeps_the_index_within_its_bound() {
    let mut index = PrefixIndex::new();
    for n in 0..1000u64 {
        index.record(n % 7, &[n * 31][..]);
    }
    assert_eq!(index.len(), 1000);
    let stats = index.evict(300, 64);
    assert_eq!(stats, EvictionStats { expired: 0, evicted: 936 });
    assert_eq!(index.len(), 64);
    assert_eq!(index.evict(300, 64), EvictionStats { expired: 0, evicted: 0 });
    index.evict(300, 0);
    assert_eq!(index.len(), 0);
}

#[test]
fn token_boundaries_are_part_of_the_hash() {
    let strings = |all: &[&str]| all.iter().map(|s| s.to_string()).collect::<Vec<String>>();
    let a = prefix_hashes(&strings(&["a", "bc"]));
    let b = prefix_hashes(&strings(&["ab", "c"]));
    assert_ne!(a[1], b[1]);
}

#[test]
fn a_served_prompt_is_credited_with_its_shared_blocks() {
    let mut index = PrefixIndex::new();
    index.record_at(3, &kvrouters::chain_hash("aaaabbbbcccc", 4), 1);
    let next = kvrouters::chain_hash("aaaabbbbxxxx", 4);
    assert_eq!(index.longest_match_at(3, &next, 2), 2);
    assert_eq!(
        index.longest_match_at(3, &kvrouters::chain_hash("xaaabbbbcccc", 4), 2),
        0
    );
}

#[test]
fn several_served_prompts_are_all_credited() {
    let mut index = PrefixIndex::new();
    index.record_at(3, &kvrouters::chain_hash("aaaabbbbcccc", 4), 1);
    index.record_at(4, &kvrouters::chain_hash("aaaabbbbddddeeee", 4), 2);
    index.record_at(3, &kvrouters::chain_hash("aaaaxxxxyyyyzzzz", 4), 3);
    let next = kvrouters::chain_hash("aaaaxxxxyyyywwww", 4);
    assert_eq!(index.longest_match_at(3, &next, 4), 3);
    assert_eq!(index.longest_match_at(4, &next, 4), 1);
    let other = kvrouters::chain_hash("aaaabbbbdddd", 4);
    assert_eq!(index.longest_match_at(3, &other, 4), 2);

    let mut index = PrefixIndex::new();
    index.record(0, &tokenize("the quick brown fox"));
    index.record(0, &tokenize("the lazy dog"));
    assert_eq!(index.matched_prefix_len(0, &tokenize("the lazy cat")), 2);
    assert_eq!(index.matched_prefix_len(0, &tokenize("the quick brown bear")), 3);
}

#[test]
fn separators_split_a_prompt() {
    for (before, after) in [("Hello wor", "ld Hello"), ("", "b b"), ("a-", "-"), ("", "")] {
        for separator in [' ', ',', '\n', '_'] {
            let mut tokens = tokenize(before);
            tokens.extend(tokenize(after));
            assert_eq!(tokenize(&format!("{before}{separator}{after}")), tokens);
        }
    }
    assert_eq!(tokenize("Gr\u{fc}\u{df}E42"), vec!["gr\u{fc}\u{df}e42"]);
    assert!(tokenize("").is_empty());
    assert!(tokenize("?! -- ").is_empty());
}

#[test]
fn no_token_is_empty() {
    for c in '\0'..=char::MAX {
        assert!(tokenize(&c.to_string()).iter().all(|token| !token.is_empty()));
    }
}
