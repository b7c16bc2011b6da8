use combogen::alphabet::build_alphabet;

#[test]
fn full_alphabet_is_all_categories_in_order() {
    let a = build_alphabet(false, false, false, false);
    assert_eq!(a.len(), 26 + 26 + 10 + 33);
    let expected: Vec<char> =
        "ABCDEFGHIJKLMNOPQRSTUVWXYZabcdefghijklmnopqrstuvwxyz0123456789 !\"#$%&'()*+,-./:;<=>?@[\\]^_`{|}~"
            .chars()
            .collect();
    assert_eq!(a, expected);
}

#[test]
fn exclusions_drop_whole_categories() {
    let a = build_alphabet(true, false, true, true);
    let expected: Vec<char> = "abcdefghijklmnopqrstuvwxyz".chars().collect();
    assert_eq!(a, expected);

    let a = build_alphabet(false, true, false, true);
    let expected: Vec<char> = "ABCDEFGHIJKLMNOPQRSTUVWXYZ0123456789".chars().collect();
    assert_eq!(a, expected);
}

#[test]
fn no_character_appears_twice() {
    let a = build_alphabet(false, false, false, false);
    let mut sorted = a.clone();
    sorted.sort();
    sorted.dedup();
    assert_eq!(sorted.len(), a.len());
}

#[test]
fn all_excluded_is_empty() {
    let a = build_alphabet(true, true, true, true);
    assert!(a.is_empty());
}

#[test]
fn symbols_cover_the_four_ranges() {
    let a = build_alphabet(true, true, true, false);
    assert_eq!(a.len(), 33);
    assert_eq!(a.first(), Some(&' '));
    assert_eq!(a.last(), Some(&'~'));
    assert!(a.contains(&'/') && a.contains(&':') && a.contains(&'@'));
    assert!(a.contains(&'[') && a.contains(&'`') && a.contains(&'{'));
    assert!(!a.contains(&'A') && !a.contains(&'a') && !a.contains(&'0'));
}
