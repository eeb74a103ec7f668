use phone_directory::{fib, freq, hash_to_array, is_palindrome, nthmax, zip_hash, StringMap};

#[test]
fn fib_small_prefixes() {
    assert_eq!(fib(0), Vec::<u32>::new());
    assert_eq!(fib(1), vec![0]);
    assert_eq!(fib(2), vec![0, 1]);
    assert_eq!(fib(8), vec![0, 1, 1, 2, 3, 5, 8, 13]);
}

#[test]
fn fib_largest_allowed_prefix() {
    let xs = fib(48);
    assert_eq!(xs.len(), 48);
    assert_eq!(xs[47], 2971215073);
    assert_eq!(xs[46], 1836311903);
}

#[test]
fn palindromes_are_recognized() {
    assert!(is_palindrome(0));
    assert!(is_palindrome(7));
    assert!(is_palindrome(121));
    assert!(is_palindrome(1221));
    assert!(is_palindrome(1234554321));
    assert!(!is_palindrome(10));
    assert!(!is_palindrome(123));
    assert!(!is_palindrome(1231));
}

#[test]
fn nthmax_selects_by_rank() {
    let a = [1, 3, 2];
    assert_eq!(nthmax(0, &a), Some(3));
    assert_eq!(nthmax(1, &a), Some(2));
    assert_eq!(nthmax(2, &a), Some(1));
    assert_eq!(nthmax(3, &a), None);
    assert_eq!(nthmax(0, &[]), None);
}

#[test]
fn nthmax_counts_duplicates() {
    let a = [5, 3, 5, -1];
    assert_eq!(nthmax(0, &a), Some(5));
    assert_eq!(nthmax(1, &a), Some(5));
    assert_eq!(nthmax(2, &a), Some(3));
    assert_eq!(nthmax(3, &a), Some(-1));
}

#[test]
fn freq_finds_most_frequent_character() {
    assert_eq!(freq(""), String::new());
    assert_eq!(freq("a"), "a".to_string());
    assert_eq!(freq("aabbbcc"), "b".to_string());
    assert_eq!(freq("zzzyx"), "z".to_string());
}

#[test]
fn zip_hash_requires_equal_lengths() {
    let keys = vec!["a".to_string()];
    let vals = vec!["1".to_string(), "2".to_string()];
    assert!(zip_hash(&keys, &vals).is_none());
    assert!(zip_hash(&vals, &keys).is_none());
}

#[test]
fn zip_hash_pairs_up_keys_and_values() {
    let keys = vec!["b".to_string(), "a".to_string()];
    let vals = vec!["2".to_string(), "1".to_string()];
    let m = zip_hash(&keys, &vals).unwrap();
    assert_eq!(m.len(), 2);
    let pairs = hash_to_array(&m);
    assert_eq!(
        pairs,
        vec![
            ("a".to_string(), "1".to_string()),
            ("b".to_string(), "2".to_string()),
        ]
    );
}

#[test]
fn zip_hash_keeps_last_value_of_repeated_key() {
    let keys = vec!["a".to_string(), "b".to_string(), "a".to_string()];
    let vals = vec!["1".to_string(), "2".to_string(), "3".to_string()];
    let m = zip_hash(&keys, &vals).unwrap();
    assert_eq!(m.len(), 2);
    let pairs = hash_to_array(&m);
    assert_eq!(
        pairs,
        vec![
            ("a".to_string(), "3".to_string()),
            ("b".to_string(), "2".to_string()),
        ]
    );
}

#[test]
fn string_map_insert_replaces_value() {
    let mut m = StringMap::new();
    m.insert("k".to_string(), "old".to_string());
    m.insert("k".to_string(), "new".to_string());
    assert_eq!(m.len(), 1);
    let pairs = hash_to_array(&m);
    assert_eq!(pairs, vec![("k".to_string(), "new".to_string())]);
}

#[test]
fn hash_to_array_sorts_by_key() {
    let mut m = StringMap::new();
    m.insert("pear".to_string(), "3".to_string());
    m.insert("apple".to_string(), "1".to_string());
    m.insert("fig".to_string(), "2".to_string());
    let pairs = hash_to_array(&m);
    assert_eq!(
        pairs,
        vec![
            ("apple".to_string(), "1".to_string()),
            ("fig".to_string(), "2".to_string()),
            ("pear".to_string(), "3".to_string()),
        ]
    );
}
