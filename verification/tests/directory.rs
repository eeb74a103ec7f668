use phone_directory::PhoneBook;

#[test]
fn empty_book_finds_nothing() {
    let book = PhoneBook::new();
    assert_eq!(book.lookup("Alice"), None);
    assert_eq!(book.lookup_by_num("415-555-0100"), None);
    assert_eq!(book.names_by_ac("415"), Vec::<String>::new());
}

#[test]
fn listed_entry_is_found_by_name_and_number() {
    let mut book = PhoneBook::new();
    assert!(book.add("Alice".to_string(), "415-555-0100".to_string(), true));
    assert_eq!(book.lookup("Alice"), Some("415-555-0100".to_string()));
    assert_eq!(book.lookup_by_num("415-555-0100"), Some("Alice".to_string()));
}

#[test]
fn unlisted_entry_is_hidden_from_lookups() {
    let mut book = PhoneBook::new();
    assert!(book.add("Carol".to_string(), "212-555-0199".to_string(), false));
    assert_eq!(book.lookup("Carol"), None);
    assert_eq!(book.lookup_by_num("212-555-0199"), None);
    // The entry is still visible to the area-code query.
    assert_eq!(book.names_by_ac("212"), vec!["Carol".to_string()]);
}

#[test]
fn duplicate_name_is_rejected_and_count_unchanged() {
    let mut book = PhoneBook::new();
    assert!(book.add("Alice".to_string(), "415-555-0100".to_string(), true));
    assert!(!book.add("Alice".to_string(), "646-555-0101".to_string(), true));
    assert!(!book.add("Alice".to_string(), "646-555-0101".to_string(), false));
    // An empty prefix matches every number, so this lists every entry.
    assert_eq!(book.names_by_ac(""), vec!["Alice".to_string()]);
}

#[test]
fn invalid_numbers_are_rejected() {
    let mut book = PhoneBook::new();
    assert!(!book.add("Ann".to_string(), "123-45-6789".to_string(), true));
    assert!(!book.add("Bob".to_string(), "abc-123-4567".to_string(), true));
    assert!(!book.add("Cid".to_string(), "123-456-789".to_string(), true));
    assert!(!book.add("Dee".to_string(), "123-45-6789".to_string(), false));
    assert!(!book.add("Eve".to_string(), "123456789012".to_string(), false));
    assert!(!book.add("Fay".to_string(), "".to_string(), true));
    assert_eq!(book.names_by_ac(""), Vec::<String>::new());
}

#[test]
fn listed_number_at_most_once_unlisted_unbounded() {
    let mut book = PhoneBook::new();
    assert!(book.add("Alice".to_string(), "415-555-0100".to_string(), true));
    // A second listed entry with the same number is rejected.
    assert!(!book.add("Bob".to_string(), "415-555-0100".to_string(), true));
    // Unlisted entries may repeat the number freely.
    assert!(book.add("Bob".to_string(), "415-555-0100".to_string(), false));
    assert!(book.add("Carol".to_string(), "415-555-0100".to_string(), false));
}

#[test]
fn area_code_query_returns_matching_names_in_order() {
    let mut book = PhoneBook::new();
    assert!(book.add("Alice".to_string(), "415-555-0100".to_string(), true));
    assert!(book.add("Bob".to_string(), "646-555-0101".to_string(), true));
    assert!(book.add("Carol".to_string(), "415-555-0102".to_string(), false));
    assert_eq!(
        book.names_by_ac("415"),
        vec!["Alice".to_string(), "Carol".to_string()]
    );
    assert_eq!(book.names_by_ac("917"), Vec::<String>::new());
}

#[test]
fn directory_scenario() {
    let mut book = PhoneBook::new();
    assert!(book.add("Alice".to_string(), "415-555-0100".to_string(), true));
    assert!(!book.add("Bob".to_string(), "415-555-0100".to_string(), true));
    assert!(book.add("Bob".to_string(), "415-555-0100".to_string(), false));
    assert_eq!(book.lookup("Alice"), Some("415-555-0100".to_string()));
    assert_eq!(book.lookup("Bob"), None);
    assert_eq!(book.lookup_by_num("415-555-0100"), Some("Alice".to_string()));
    assert_eq!(
        book.names_by_ac("415"),
        vec!["Alice".to_string(), "Bob".to_string()]
    );
}
