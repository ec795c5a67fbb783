use huffman_coding::utils::{checked_total, freq_to_prob, frequency};
use std::collections::HashMap;

fn as_map(table: Vec<(char, i32)>) -> HashMap<char, i32> {
    let n = table.len();
    let map: HashMap<char, i32> = table.into_iter().collect();
    assert_eq!(map.len(), n);
    map
}

#[test]
fn test_frequency_empty_string() {
    let s = "";
    let expected: HashMap<char, i32> = HashMap::new();
    assert_eq!(as_map(frequency(s)), expected);
}

#[test]
fn test_frequency_single_character() {
    let s = "A";
    let mut expected = HashMap::new();
    expected.insert('A', 1);
    assert_eq!(as_map(frequency(s)), expected);
}

#[test]
fn test_frequency_unique_characters() {
    let s = "ABC";
    let mut expected = HashMap::new();
    expected.insert('A', 1);
    expected.insert('B', 1);
    expected.insert('C', 1);
    assert_eq!(as_map(frequency(s)), expected);
}

#[test]
fn test_frequency_all_same_characters() {
    let s = "AAA";
    let mut expected = HashMap::new();
    expected.insert('A', 3);
    assert_eq!(as_map(frequency(s)), expected);
}

#[test]
fn test_frequency_mixed_characters() {
    let s = "AABBC";
    let mut expected = HashMap::new();
    expected.insert('A', 2);
    expected.insert('B', 2);
    expected.insert('C', 1);
    assert_eq!(as_map(frequency(s)), expected);
}

#[test]
fn test_frequency_case_sensitivity() {
    let s = "Aa";
    let mut expected = HashMap::new();
    expected.insert('A', 1);
    expected.insert('a', 1);
    assert_eq!(as_map(frequency(s)), expected);
}

#[test]
fn test_frequency_non_alphabetic_characters() {
    let s = "A1 !";
    let mut expected = HashMap::new();
    expected.insert('A', 1);
    expected.insert('1', 1);
    expected.insert(' ', 1);
    expected.insert('!', 1);
    assert_eq!(as_map(frequency(s)), expected);
}

#[test]
fn test_frequency_unicode_characters() {
    let s = "AðŸ˜€";
    let mut expected = HashMap::new();
    expected.insert('A', 1);
    for symbol in "ðŸ˜€".chars() {
        expected.insert(symbol, 1);
    }
    assert_eq!(as_map(frequency(s)), expected);
}

#[test]
fn frequency_counts_a_symbol_outside_the_basic_plane() {
    let s = "A\u{1F600}A";
    assert_eq!(frequency(s), vec![('A', 2), ('\u{1F600}', 1)]);
}

#[test]
fn frequency_lists_symbols_in_order_of_first_appearance() {
    assert_eq!(frequency("ABBA"), vec![('A', 2), ('B', 2)]);
    assert_eq!(frequency("cabbage"), vec![('c', 1), ('a', 2), ('b', 2), ('g', 1), ('e', 1)]);
}

#[test]
fn frequency_counts_add_up_to_the_length() {
    let texts = ["", "A", "ABBA", "1234567890ABjBA1WROJEX(U@#X(@(#((@((@DKODJWOJEWOJWOeeee aaaccchhh"];
    for text in texts {
        let total: i64 = frequency(text).iter().map(|entry| entry.1 as i64).sum();
        assert_eq!(total, text.chars().count() as i64);
    }
}

#[test]
fn test_freq_to_prob_abba() {
    let input = vec![('A', 2), ('B', 2)];

    let result = freq_to_prob(&input);
    let total = checked_total(&result).unwrap() as f32;
    let probs: HashMap<char, f32> =
        result.iter().map(|entry| (entry.0, entry.1 as f32 / total)).collect();

    assert!(probs.contains_key(&'A'));
    assert!(probs.contains_key(&'B'));

    assert!((probs[&'A'] - 0.5).abs() < f32::EPSILON);
    assert!((probs[&'B'] - 0.5).abs() < f32::EPSILON);
}

#[test]
fn freq_to_prob_keeps_symbols_and_counts() {
    let input = vec![('x', 3), ('y', 0), ('z', 7)];
    let result = freq_to_prob(&input);
    assert_eq!(result, vec![('x', 3u64), ('y', 0u64), ('z', 7u64)]);
    assert_eq!(checked_total(&result), Some(10));
}

#[test]
fn freq_to_prob_of_an_empty_table_is_empty() {
    let input: Vec<(char, i32)> = Vec::new();
    let result = freq_to_prob(&input);
    assert!(result.is_empty());
    assert_eq!(checked_total(&result), Some(0));
}

#[test]
fn probabilities_add_up_to_one() {
    let weights = freq_to_prob(&frequency("the quick brown fox jumps over the lazy dog"));
    let total = checked_total(&weights).unwrap();
    assert_eq!(total, 43);
    let sum: f64 = weights.iter().map(|entry| entry.1 as f64 / total as f64).sum();
    assert!((sum - 1.0).abs() < 1e-9);
}

#[test]
fn checked_total_reports_what_does_not_fit() {
    let table = vec![('a', u64::MAX), ('b', 1)];
    assert_eq!(checked_total(&table), None);
    let table = vec![('a', u64::MAX - 1), ('b', 1)];
    assert_eq!(checked_total(&table), Some(u64::MAX));
}

#[test]
fn freq_to_prob_of_zero_counts_is_empty() {
    let input = vec![('A', 0)];
    assert!(freq_to_prob(&input).is_empty());
    let input = vec![('A', 0), ('B', 0), ('C', 0)];
    assert!(freq_to_prob(&input).is_empty());
    let input = vec![('A', 0), ('B', 1)];
    assert_eq!(freq_to_prob(&input), vec![('A', 0u64), ('B', 1u64)]);
}

#[test]
fn frequency_names_no_symbol_twice() {
    let table = frequency("abracadabra, abracadabra");
    for (i, a) in table.iter().enumerate() {
        for b in table.iter().skip(i + 1) {
            assert_ne!(a.0, b.0);
        }
    }
    let weights = freq_to_prob(&table);
    assert_eq!(weights.len(), table.len());
}
