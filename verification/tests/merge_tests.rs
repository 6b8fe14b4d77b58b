use keygen::merge::{check_fingerprints, count_combinations};

fn pair(a: &str, b: &str) -> (String, String) {
    (a.to_string(), b.to_string())
}

#[test]
fn combinations_are_counted_once_each() {
    assert_eq!(count_combinations(&[]), 0);
    let pairs = vec![pair("c1", "k1"), pair("c1", "k1"), pair("c1", "k2"), pair("c2", "k1"), pair("c1", "k2")];
    assert_eq!(count_combinations(&pairs), 3);
}

#[test]
fn single_combination_merges_silently() {
    let pairs = vec![pair("c", "k"), pair("c", "k")];
    assert_eq!(check_fingerprints(&pairs, false), Ok(None));
    assert_eq!(check_fingerprints(&[], false), Ok(None));
}

#[test]
fn mixed_combinations_need_force() {
    let pairs = vec![pair("c1", "k"), pair("c2", "k")];
    assert_eq!(
        check_fingerprints(&pairs, false),
        Err("Found 2 different corpus/config combinations. Use --force to merge anyway.".to_string())
    );
    assert_eq!(
        check_fingerprints(&pairs, true),
        Ok(Some("Warning: Merging results from 2 different corpus/config combinations".to_string()))
    );
}

#[test]
fn messages_spell_large_counts() {
    let pairs: Vec<(String, String)> = (0..12).map(|i| pair(&format!("c{}", i), "k")).collect();
    assert_eq!(
        check_fingerprints(&pairs, false),
        Err("Found 12 different corpus/config combinations. Use --force to merge anyway.".to_string())
    );
}
