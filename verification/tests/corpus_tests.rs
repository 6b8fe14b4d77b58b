use keygen::corpus::{letter_count, monograms, normalize, quartads, CorpusStats, BREAK_MARKER};

#[test]
fn test_normalize() {
    assert_eq!(
        normalize("hello"),
        vec![7, 4, 11, 11, 14] // h=7, e=4, l=11, o=14
    );

    assert_eq!(
        normalize("Hello World!"),
        vec![7, 4, 11, 11, 14, 255, 22, 14, 17, 11, 3, 255]
    );

    assert_eq!(
        normalize("ABC123xyz"),
        vec![0, 1, 2, 255, 255, 255, 23, 24, 25]
    );
}

#[test]
fn test_quartads_simple() {
    let normalized = normalize("hello");
    let quads = quartads(&normalized);

    // "hello" has quartads: "hell" and "ello"
    assert_eq!(quads.len(), 2);
    assert_eq!(quads.get(&[7, 4, 11, 11]).copied(), Some(1)); // "hell"
    assert_eq!(quads.get(&[4, 11, 11, 14]).copied(), Some(1)); // "ello"
}

#[test]
fn test_quartads_with_breaks() {
    let normalized = normalize("hello world");
    let quads = quartads(&normalized);

    assert_eq!(quads.len(), 4);
    assert_eq!(quads.get(&[7, 4, 11, 11]).copied(), Some(1)); // "hell"
    assert_eq!(quads.get(&[4, 11, 11, 14]).copied(), Some(1)); // "ello"
    assert_eq!(quads.get(&[22, 14, 17, 11]).copied(), Some(1)); // "worl"
    assert_eq!(quads.get(&[14, 17, 11, 3]).copied(), Some(1)); // "orld"
}

#[test]
fn test_quartads_repeated() {
    let normalized = normalize("aaaa aaaa");
    let quads = quartads(&normalized);

    // Both "aaaa" sequences create the same quartad
    assert_eq!(quads.len(), 1);
    assert_eq!(quads.get(&[0, 0, 0, 0]).copied(), Some(2));
}

#[test]
fn test_empty_and_short() {
    assert_eq!(quartads(&normalize("")).len(), 0);
    assert_eq!(quartads(&normalize("a")).len(), 0);
    assert_eq!(quartads(&normalize("ab")).len(), 0);
    assert_eq!(quartads(&normalize("abc")).len(), 0);
    assert_eq!(quartads(&normalize("abcd")).len(), 1);
}

#[test]
fn test_non_letters_only() {
    assert_eq!(quartads(&normalize("123 !@# $%^")).len(), 0);
}

#[test]
fn test_monograms_and_letter_count() {
    let n = normalize("aAa!bB  c");
    let counts = monograms(&n);
    let total = letter_count(&n);
    assert_eq!(total, 6);
    assert_eq!(counts[0], 3); // a
    assert_eq!(counts[1], 2); // b
    assert_eq!(counts[2], 1); // c
}

#[test]
fn quartads_overlap_and_first_occurrence_order() {
    let quads = quartads(&normalize("abcdeabcd"));
    // abcd, bcde, cdea, deab, eabc, abcd
    assert_eq!(quads.len(), 5);
    assert_eq!(quads.get(&[0, 1, 2, 3]).copied(), Some(2));
    assert_eq!(quads.get(&[4, 0, 1, 2]).copied(), Some(1));
    assert_eq!(quads.get(&[3, 2, 1, 0]).copied(), None);
    let entries = quads.entries();
    assert_eq!(entries[0], ([0, 1, 2, 3], 2));
    assert_eq!(entries[1], ([1, 2, 3, 4], 1));
}

#[test]
fn quartads_of_arbitrary_bytes() {
    let quads = quartads(&[1, 2, 3, 4, BREAK_MARKER, 200, 201, 202, 203, 204]);
    assert_eq!(quads.len(), 3);
    assert_eq!(quads.get(&[200, 201, 202, 203]).copied(), Some(1));
}

#[test]
fn normalize_non_ascii_is_break() {
    assert_eq!(normalize("é Z"), vec![255, 255, 25]);
}

#[test]
fn corpus_stats_from_text() {
    let stats = CorpusStats::from_corpus("the cat, the hat");
    assert_eq!(stats.letters_len, 12);
    assert_eq!(stats.monograms[19], 4); // t
    assert_eq!(stats.monograms[7], 3); // h
    assert_eq!(stats.quartads.len(), 0);
    let stats = CorpusStats::from_corpus("theme them");
    assert_eq!(stats.quartads.get(&[19, 7, 4, 12]).copied(), Some(2));
    assert_eq!(stats.quartads.len(), 2);
}
