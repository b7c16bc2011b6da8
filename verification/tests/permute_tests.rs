use combogen::permute::permute;
use combogen::trtable::TrTable;

#[test]
fn pairs_to_table_to_permutation() {
    let pairs = vec![("g".to_string(), "9 G".to_string())];
    let t = TrTable::from_entries(&pairs).unwrap();
    let out = permute(0, "go", String::new(), &t);
    assert_eq!(out, vec!["9o".to_string(), "Go".to_string()]);
}

fn table(entries: Vec<(char, Vec<&str>)>) -> TrTable {
    let mut t = TrTable::new();
    for (letter, words) in entries {
        t.insert(letter, words.into_iter().map(|w| w.to_string()).collect());
    }
    t
}

#[test]
fn go_with_g_alternatives() {
    let t = table(vec![('g', vec!["9", "G"])]);
    let out = permute(0, "go", String::new(), &t);
    assert_eq!(out, vec!["9o".to_string(), "Go".to_string()]);
}

#[test]
fn branch_product_counts_alternatives() {
    let t = table(vec![('a', vec!["4", "@"])]);
    let out = permute(0, "ab", String::new(), &t);
    assert_eq!(out, vec!["4b".to_string(), "@b".to_string()]);
}

#[test]
fn no_entries_emits_term_once() {
    let t = TrTable::new();
    let out = permute(0, "go", String::new(), &t);
    assert_eq!(out, vec!["go".to_string()]);
}

#[test]
fn unrelated_entries_pass_term_through() {
    let t = table(vec![('z', vec!["2"])]);
    let out = permute(0, "go", String::new(), &t);
    assert_eq!(out, vec!["go".to_string()]);
}

#[test]
fn empty_alternative_list_is_treated_as_missing() {
    let mut t = TrTable::new();
    t.insert('g', Vec::new());
    let out = permute(0, "go", String::new(), &t);
    assert_eq!(out, vec!["go".to_string()]);
}

#[test]
fn multi_character_alternative_changes_length() {
    let t = table(vec![('g', vec!["gh"])]);
    let out = permute(0, "go", String::new(), &t);
    assert_eq!(out, vec!["gho".to_string()]);
}

#[test]
fn branches_multiply_across_positions() {
    let t = table(vec![('a', vec!["4", "@"]), ('b', vec!["8", "6", "|3"])]);
    let out = permute(0, "ab", String::new(), &t);
    assert_eq!(out.len(), 6);
    assert_eq!(
        out,
        vec![
            "48".to_string(),
            "46".to_string(),
            "4|3".to_string(),
            "@8".to_string(),
            "@6".to_string(),
            "@|3".to_string(),
        ]
    );
}

#[test]
fn non_ascii_term_is_walked_by_characters() {
    let t = table(vec![('ö', vec!["o", "0"])]);
    let out = permute(0, "gör", String::new(), &t);
    assert_eq!(out, vec!["gor".to_string(), "g0r".to_string()]);
}

#[test]
fn empty_term_emits_empty_string() {
    let t = table(vec![('a', vec!["4"])]);
    let out = permute(0, "", String::new(), &t);
    assert_eq!(out, vec!["".to_string()]);
}
