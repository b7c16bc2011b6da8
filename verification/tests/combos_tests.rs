use combogen::combos::all_combos;

fn strings(v: Vec<&str>) -> Vec<String> {
    v.into_iter().map(|s| s.to_string()).collect()
}

#[test]
fn two_letter_alphabet_count_two() {
    let alphabet = vec!['A', 'B'];
    let out = all_combos(&alphabet, 2, String::new());
    assert_eq!(out, strings(vec!["AA", "AB", "BA", "BB"]));
}

#[test]
fn zero_count_emits_empty_string_once() {
    let alphabet = vec!['A', 'B', 'C'];
    let out = all_combos(&alphabet, 0, String::new());
    assert_eq!(out, strings(vec![""]));

    let none: Vec<char> = Vec::new();
    let out = all_combos(&none, 0, String::new());
    assert_eq!(out, strings(vec![""]));
}

#[test]
fn empty_alphabet_positive_count_emits_nothing() {
    let alphabet: Vec<char> = Vec::new();
    let out = all_combos(&alphabet, 3, String::new());
    assert!(out.is_empty());
}

#[test]
fn cartesian_product_count_and_uniqueness() {
    let alphabet = vec!['a', 'b', 'c'];
    let out = all_combos(&alphabet, 2, String::new());
    assert_eq!(out.len(), 9);
    for s in &out {
        assert_eq!(s.len(), 2);
        assert!(s.chars().all(|c| alphabet.contains(&c)));
    }
    let mut sorted = out.clone();
    sorted.sort();
    sorted.dedup();
    assert_eq!(sorted.len(), 9);
    for x in &alphabet {
        for y in &alphabet {
            let want = format!("{}{}", x, y);
            assert!(out.contains(&want));
        }
    }
}

#[test]
fn odometer_order_first_position_slowest() {
    let alphabet = vec!['0', '1'];
    let out = all_combos(&alphabet, 3, String::new());
    assert_eq!(
        out,
        strings(vec!["000", "001", "010", "011", "100", "101", "110", "111"])
    );
}

#[test]
fn seed_prefix_is_kept() {
    let alphabet = vec!['x', 'y'];
    let out = all_combos(&alphabet, 1, "pre".to_string());
    assert_eq!(out, strings(vec!["prex", "prey"]));
}
