use caw::{doff, don, ArmorError, CalDate, DictMappings};
use chrono::Datelike;

/// A catalog of unique, space-free words, large enough for the scheme.
fn make_catalog() -> Vec<String> {
    let mut cat: Vec<String> = Vec::new();
    for i in 0..65551u32 {
        cat.push(format!("w{}", i));
    }
    cat
}

fn today() -> CalDate {
    let now = chrono::Utc::now().date_naive();
    CalDate { year: now.year(), month: now.month(), day: now.day() }
}

fn fixed_date() -> CalDate {
    CalDate { year: 2021, month: 5, day: 7 }
}

#[test]
fn reversibility() {
    let catalog = make_catalog();
    let dict = DictMappings::from_seed(69, &today(), &catalog).unwrap();
    let test_data = "This is a very cool test string 😎".as_bytes().to_vec();
    let resultant_data = don(&test_data, &dict, &catalog, 50).unwrap();
    let doffed = doff(&resultant_data, &dict, &catalog).unwrap();
    assert_eq!(test_data, doffed);
}

#[test]
fn reverse_lookup() {
    let catalog = make_catalog();
    let dict = DictMappings::from_seed(69, &today(), &catalog).unwrap();
    for word in vec![32551u16, 1233, 43241, 3289, 123, 1234, 1] {
        let entry = dict.words[word as usize];
        let reverse = dict.reverse_lookup(entry).unwrap();
        assert_eq!(word, reverse)
    }
}

#[test]
fn concrete_scenario() {
    let catalog = make_catalog();
    let dict = DictMappings::from_seed(69, &fixed_date(), &catalog).unwrap();
    let data = "Test data!".as_bytes().to_vec();
    assert_eq!(data.len(), 10);
    let messages = don(&data, &dict, &catalog, 50).unwrap();
    assert!(messages.len() >= 2);
    for m in &messages {
        assert!(m.chars().count() <= 50);
    }
    let doffed = doff(&messages, &dict, &catalog).unwrap();
    assert_eq!(data, doffed);
}

#[test]
fn odd_length_round_trip() {
    let catalog = make_catalog();
    let dict = DictMappings::from_seed(7, &fixed_date(), &catalog).unwrap();
    let data = vec![1u8, 2, 3];
    let messages = don(&data, &dict, &catalog, 80).unwrap();
    let doffed = doff(&messages, &dict, &catalog).unwrap();
    assert_eq!(doffed, vec![1u8, 2, 3, 0]);
}

#[test]
fn empty_input_round_trip() {
    let catalog = make_catalog();
    let dict = DictMappings::from_seed(7, &fixed_date(), &catalog).unwrap();
    let data: Vec<u8> = Vec::new();
    let messages = don(&data, &dict, &catalog, 80).unwrap();
    assert!(messages.len() >= 1);
    let doffed = doff(&messages, &dict, &catalog).unwrap();
    assert_eq!(doffed, Vec::<u8>::new());
}

#[test]
fn message_bound() {
    let catalog = make_catalog();
    let dict = DictMappings::from_seed(99, &fixed_date(), &catalog).unwrap();
    let data: Vec<u8> = (0..200u16).map(|i| (i % 251) as u8).collect();
    let limit = 60usize;
    let messages = don(&data, &dict, &catalog, limit).unwrap();
    assert!(messages.len() >= 2);
    for m in &messages {
        assert!(m.chars().count() <= limit);
    }
}

#[test]
fn order_independence() {
    let catalog = make_catalog();
    let dict = DictMappings::from_seed(42, &fixed_date(), &catalog).unwrap();
    let data: Vec<u8> = (0..100u16).map(|i| (i * 7 % 256) as u8).collect();
    let messages = don(&data, &dict, &catalog, 60).unwrap();
    assert!(messages.len() >= 2);
    let mut shuffled = messages.clone();
    shuffled.reverse();
    let a = doff(&messages, &dict, &catalog).unwrap();
    let b = doff(&shuffled, &dict, &catalog).unwrap();
    assert_eq!(a, b);
    assert_eq!(a, data);
}

#[test]
fn determinism() {
    let catalog = make_catalog();
    let d1 = DictMappings::from_seed(123456789, &fixed_date(), &catalog).unwrap();
    let d2 = DictMappings::from_seed(123456789, &fixed_date(), &catalog).unwrap();
    assert_eq!(d1.begin, d2.begin);
    assert_eq!(d1.end, d2.end);
    assert_eq!(d1.fragment, d2.fragment);
    assert_eq!(d1.words, d2.words);
}

#[test]
fn table_is_shuffled() {
    // A table that simply kept the identity order of the catalog indices
    // would start with begin == [0, 1, 2, 3, 4].
    let catalog = make_catalog();
    let dict = DictMappings::from_seed(69, &fixed_date(), &catalog).unwrap();
    let identity: Vec<u32> = vec![0, 1, 2, 3, 4];
    assert_ne!(dict.begin, identity);
}

#[test]
fn marker_disjointness() {
    let catalog = make_catalog();
    let dict = DictMappings::from_seed(5, &fixed_date(), &catalog).unwrap();
    assert_eq!(dict.begin.len(), 5);
    assert_eq!(dict.end.len(), 5);
    assert_eq!(dict.fragment.len(), 5);
    assert_eq!(dict.words.len(), 65536);
    let mut seen = vec![false; catalog.len()];
    for range in [&dict.begin, &dict.end, &dict.fragment, &dict.words] {
        for &idx in range.iter() {
            assert!((idx as usize) < catalog.len());
            assert!(!seen[idx as usize]);
            seen[idx as usize] = true;
        }
    }
}

#[test]
fn reverse_lookup_of_marker_is_none() {
    let catalog = make_catalog();
    let dict = DictMappings::from_seed(5, &fixed_date(), &catalog).unwrap();
    assert_eq!(dict.reverse_lookup(dict.begin[0]), None);
    assert_eq!(dict.reverse_lookup(dict.end[4]), None);
    assert_eq!(dict.reverse_lookup(dict.fragment[2]), None);
}

#[test]
fn insufficient_catalog() {
    let catalog: Vec<String> = vec![String::from("alpha"), String::from("beta")];
    let r = DictMappings::from_seed(69, &fixed_date(), &catalog);
    assert!(matches!(r, Err(ArmorError::InsufficientCatalog)));
}

#[test]
fn limit_too_small() {
    let catalog = make_catalog();
    let dict = DictMappings::from_seed(69, &fixed_date(), &catalog).unwrap();
    let data = vec![10u8, 20];
    let r = don(&data, &dict, &catalog, 3);
    assert_eq!(r, Err(ArmorError::LimitTooSmall));
}

#[test]
fn malformed_message() {
    let catalog = make_catalog();
    let dict = DictMappings::from_seed(69, &fixed_date(), &catalog).unwrap();
    // A message that starts with a data word instead of a begin or fragment
    // marker is rejected.
    let word = catalog[dict.words[5] as usize].clone();
    let r = doff(&vec![word], &dict, &catalog);
    assert_eq!(r, Err(ArmorError::MalformedMessage));
}

#[test]
fn unknown_tokens_are_dropped() {
    let catalog = make_catalog();
    let dict = DictMappings::from_seed(69, &fixed_date(), &catalog).unwrap();
    let data = vec![1u8, 2, 3, 4];
    let mut messages = don(&data, &dict, &catalog, 200).unwrap();
    assert_eq!(messages.len(), 1);
    // Splice a token that is not in the catalog into the head message: it is
    // silently ignored.
    messages[0].push_str(" notaword");
    let doffed = doff(&messages, &dict, &catalog).unwrap();
    assert_eq!(doffed, data);
}
