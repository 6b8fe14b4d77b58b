use keygen::constraints::{compute_letter_hands, Constraints, Word};
use keygen::geometry::Hand;
use keygen::layout_26::Layout;

#[test]
fn test_word_parsing_filters_non_letters() {
    let w = Word::from_str("you!").unwrap();
    assert_eq!(w.codes(), &vec![24, 14, 20]); // y o u
}

#[test]
fn test_word_parsing_lowercase() {
    let w = Word::from_str("YOU").unwrap();
    assert_eq!(w.codes(), &vec![24, 14, 20]);
}

#[test]
fn test_single_letter_words_ignored() {
    assert!(Word::from_str("I").is_none());
    assert!(Word::from_str("a").is_none());
}

#[test]
fn test_empty_constraints_always_pass() {
    let c = Constraints::default();
    assert!(c.check_layout(&Layout::alphabetical()));
}

#[test]
fn test_compute_letter_hands_correctness() {
    let layout = Layout::alphabetical();
    let hands = compute_letter_hands(&layout);
    for code in 0..26u8 {
        let ch = (b'a' + code) as char;
        let expected = layout.get_key_info(ch).unwrap().hand;
        assert_eq!(hands[code as usize], expected);
    }
}

#[test]
fn test_forbid_same_hand_blocks_violation() {
    let c = Constraints::with_forbid_same_hand_words(&["you"]);
    let alphabetical = Layout::alphabetical();
    assert!(!c.check_layout(&alphabetical)); // y, o, u are all right-hand
}

#[test]
fn test_forbid_same_hand_allows_mixed_hands() {
    // Move 'o' to left hand to split "you"
    let mut layout = Layout::alphabetical();
    // 'o' at position 14 (right index top), swap with left index home at position 8
    layout.swap(14, 8);
    let c = Constraints::with_forbid_same_hand_words(&["you"]);
    assert!(c.check_layout(&layout));
}

#[test]
fn word_parsing_keeps_only_letters_in_order() {
    let w = Word::from_str("a-B c!").unwrap();
    assert_eq!(w.codes(), &vec![0, 1, 2]);
    assert!(Word::from_str("!!").is_none());
    assert!(Word::from_str("").is_none());
}

#[test]
fn constraints_ignore_short_words() {
    // "I" is dropped; "you" stays
    let c = Constraints::with_forbid_same_hand_words(&["I", "you"]);
    assert!(!c.check_layout(&Layout::alphabetical()));
    let only_short = Constraints::with_forbid_same_hand_words(&["I", "a"]);
    assert!(only_short.check_layout(&Layout::alphabetical()));
}

#[test]
fn letter_hands_of_alphabetical_layout() {
    let hands = compute_letter_hands(&Layout::alphabetical());
    for k in 0..13 {
        assert_eq!(hands[k], Hand::Left);
    }
    for k in 13..26 {
        assert_eq!(hands[k], Hand::Right);
    }
}

#[test]
fn mirror_image_meets_the_same_constraints() {
    let c = Constraints::with_forbid_same_hand_words(&["you", "cafe"]);
    let alpha = Layout::alphabetical();
    let mirrored = keygen::symmetry::mirror_layout(&alpha);
    assert_eq!(c.check_layout(&alpha), c.check_layout(&mirrored));
    let mut mixed = Layout::alphabetical();
    mixed.swap(14, 1);
    let mixed_mirror = keygen::symmetry::mirror_layout(&mixed);
    assert_eq!(c.check_layout(&mixed), c.check_layout(&mixed_mirror));
    let only_you = Constraints::with_forbid_same_hand_words(&["you"]);
    assert!(only_you.check_layout(&mixed));
    assert!(only_you.check_layout(&mixed_mirror));
    assert!(!only_you.check_layout(&alpha));
    assert!(!only_you.check_layout(&mirrored));
}

#[test]
fn letters_are_read_from_their_low_byte() {
    let empty = Constraints::new();
    assert!(empty.check_layout(&Layout { positions: ['!'; 26] }));
    // U+0161 has low byte 0x61, read as 'a'
    let mut layout = Layout::alphabetical();
    layout.positions[0] = '\u{161}';
    let hands = compute_letter_hands(&layout);
    assert_eq!(hands[0], Hand::Left);
    layout.positions[25] = '\u{161}';
    let hands = compute_letter_hands(&layout);
    assert_eq!(hands[0], Hand::Right);
}
