use combogen::trtable::{TrError, TrTable};

fn pairs(raw: Vec<(&str, &str)>) -> Vec<(String, String)> {
    raw.into_iter()
        .map(|(k, v)| (k.to_string(), v.to_string()))
        .collect()
}

#[test]
fn empty_table_has_no_entries() {
    let t = TrTable::new();
    assert!(!t.contains_key('a'));
    assert!(t.get('a').is_none());
}

#[test]
fn insert_then_lookup() {
    let mut t = TrTable::new();
    t.insert('g', vec!["9".to_string(), "G".to_string()]);
    assert!(t.contains_key('g'));
    assert!(!t.contains_key('o'));
    assert_eq!(t.get('g'), Some(&vec!["9".to_string(), "G".to_string()]));
    assert_eq!(t.get('o'), None);
}

#[test]
fn repeated_key_concatenates_lists() {
    let mut t = TrTable::new();
    t.insert('g', vec!["9".to_string()]);
    t.insert('a', vec!["4".to_string()]);
    t.insert('g', vec!["G".to_string(), "6".to_string()]);
    assert_eq!(
        t.get('g'),
        Some(&vec!["9".to_string(), "G".to_string(), "6".to_string()])
    );
    assert_eq!(t.get('a'), Some(&vec!["4".to_string()]));
}

#[test]
fn from_entries_splits_values_at_spaces() {
    let t = TrTable::from_entries(&pairs(vec![("g", "9 G"), ("o", "0")])).unwrap();
    assert_eq!(t.get('g'), Some(&vec!["9".to_string(), "G".to_string()]));
    assert_eq!(t.get('o'), Some(&vec!["0".to_string()]));
}

#[test]
fn from_entries_accumulates_repeated_keys() {
    let t = TrTable::from_entries(&pairs(vec![("g", "9"), ("g", "G")])).unwrap();
    assert_eq!(t.get('g'), Some(&vec!["9".to_string(), "G".to_string()]));
}

#[test]
fn from_entries_rejects_long_key() {
    let r = TrTable::from_entries(&pairs(vec![("g", "9"), ("ab", "4")]));
    assert!(matches!(r, Err(TrError::KeyNotOneChar)));
}

#[test]
fn from_entries_rejects_empty_key() {
    let r = TrTable::from_entries(&pairs(vec![("", "4")]));
    assert!(matches!(r, Err(TrError::KeyNotOneChar)));
}

#[test]
fn from_entries_of_nothing_is_empty() {
    let t = TrTable::from_entries(&Vec::new()).unwrap();
    assert!(!t.contains_key('a'));
}

#[test]
fn double_space_yields_no_empty_piece() {
    let t = TrTable::from_entries(&pairs(vec![("g", "9  G")])).unwrap();
    assert_eq!(t.get('g'), Some(&vec!["9".to_string(), "G".to_string()]));
}

#[test]
fn surrounding_spaces_contribute_nothing() {
    let t = TrTable::from_entries(&pairs(vec![("g", " 9 G ")])).unwrap();
    assert_eq!(t.get('g'), Some(&vec!["9".to_string(), "G".to_string()]));
}

#[test]
fn empty_value_is_rejected() {
    let r = TrTable::from_entries(&pairs(vec![("g", "")]));
    assert!(matches!(r, Err(TrError::EmptyValue)));
}

#[test]
fn all_space_value_is_rejected() {
    let r = TrTable::from_entries(&pairs(vec![("g", " ")]));
    assert!(matches!(r, Err(TrError::EmptyValue)));
}

#[test]
fn loaded_replacements_are_never_empty() {
    let t = TrTable::from_entries(&pairs(vec![("g", " 9  G "), ("o", "0")])).unwrap();
    for letter in ['g', 'o'] {
        let alternatives = t.get(letter).unwrap();
        assert!(!alternatives.is_empty());
        assert!(alternatives.iter().all(|w| !w.is_empty()));
    }
}
