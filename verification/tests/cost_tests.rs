use keygen::cost::{
    bigram_features, finger_repeat, hand_usage, is_roll_in, is_roll_out, key_distance_sq_of,
    quartad_features, trigram_features,
};
use keygen::geometry::{key_at, Finger, Hand};
use keygen::layout_26::Layout;
use keygen::symmetry::mirror_layout;

#[test]
fn features_alternation_symmetry() {
    // "abab": a and b both on the left hand
    let layout = Layout::alphabetical();
    let f = quartad_features(&layout, &[0, 1, 0, 1]).unwrap();
    assert!(f.bigrams.iter().all(|b| b.same_hand && !b.alt_hand));
    // move b to the right hand: every bigram alternates
    let mut layout2 = layout.clone();
    layout2.swap(1, 18);
    let g = quartad_features(&layout2, &[0, 1, 0, 1]).unwrap();
    assert!(g.bigrams.iter().all(|b| !b.same_hand && b.alt_hand));
    assert!(g.alternating_hand_4);
    assert!(!g.same_hand_4);
    assert!(f.same_hand_4);
}

#[test]
fn weighted_alternation_matches_per_bigram_rewards() {
    // weights of the simple configuration: same hand +2, alternation -2
    let layout = Layout::alphabetical();
    let weigh = |l: &Layout| {
        let f = quartad_features(l, &[0, 1, 0, 1]).unwrap();
        let same: f64 = f.bigrams.iter().filter(|b| b.same_hand).count() as f64 * 2.0;
        let alt: f64 = f.bigrams.iter().filter(|b| b.alt_hand).count() as f64 * -2.0;
        (same, alt)
    };
    assert_eq!(weigh(&layout), (6.0, 0.0));
    let mut layout2 = layout.clone();
    layout2.swap(1, 18);
    assert_eq!(weigh(&layout2), (0.0, -6.0));
}

#[test]
fn rolls() {
    assert!(is_roll_out(Hand::Left, Finger::Index, Finger::Pinky));
    assert!(!is_roll_out(Hand::Right, Finger::Index, Finger::Pinky));
    assert!(is_roll_out(Hand::Right, Finger::Pinky, Finger::Index));
    assert!(is_roll_in(Hand::Left, Finger::Pinky, Finger::Ring));
    assert!(!is_roll_in(Hand::Left, Finger::Ring, Finger::Ring));
}

#[test]
fn distances_in_quarter_units() {
    // left index home (8) to left index side home (9): half a key width
    assert_eq!(key_distance_sq_of(&key_at(8), &key_at(9)), 1);
    // left ring top (2) to left ring bottom (10): three widths vertically
    assert_eq!(key_distance_sq_of(&key_at(2), &key_at(10)), 36);
    // left pinky side (0) to left middle home (7): three columns
    assert_eq!(key_distance_sq_of(&key_at(0), &key_at(7)), 36);
    // different hands
    assert_eq!(key_distance_sq_of(&key_at(0), &key_at(25)), 0);
    // diagonal: left middle top (3) to left index home (8): one column, one row
    assert_eq!(key_distance_sq_of(&key_at(3), &key_at(8)), 4 + 9);
}

#[test]
fn bigram_events() {
    // left ring top (2) then left ring bottom (10): same finger, far
    let b = bigram_features(2, 10);
    assert!(b.same_finger && b.same_hand && b.beyond_diagonal);
    assert_eq!(b.distance_sq, 36);
    // left ring home (6) -> left middle home (7): inward roll? ring -> middle on left is outward
    let r = bigram_features(6, 7);
    assert!(r.roll_out && !r.roll_in && !r.broken_roll);
    let r = bigram_features(7, 6);
    assert!(r.roll_in && !r.roll_out);
    // pinky keys all sit on the home row, so no pinky/ring twist can occur
    for a in 0..26 {
        for b in 0..26 {
            assert!(!bigram_features(a, b).pinky_ring_twist);
        }
    }
    // broken roll: left pinky side (0) -> left index side top (5)
    let br = bigram_features(0, 5);
    assert!(br.broken_roll);
}

#[test]
fn trigram_events() {
    // ring (6), pinky (1), middle (7) on the left home row: roll reversal
    assert!(trigram_features(6, 1, 7).roll_reversal);
    // bottom, home, top with consistent outward roll: ring bottom (10), middle home (7), index top (4)
    assert!(trigram_features(10, 7, 4).twist);
    // sandwich: left pinky side (0), right key, left index side top (5)
    let s = trigram_features(0, 20, 5);
    assert!(s.sandwich);
    assert_eq!(s.sandwich_distance_sq, 100 + 9);
}

#[test]
fn finger_repeats() {
    // ring top, middle home, ring bottom on the left: ring comes back
    assert!(finger_repeat(&[2, 7, 10, 0]));
    // hand switch in between resets
    assert!(!finger_repeat(&[2, 20, 10, 25]));
    // the same key again is not a repeat of the finger on another key
    assert!(!finger_repeat(&[2, 2, 7, 7]));
}

#[test]
fn missing_letter_gives_none() {
    let layout = Layout::alphabetical();
    assert!(quartad_features(&layout, &[0, 1, 2, 30]).is_none());
    let mut broken = Layout::alphabetical();
    broken.positions[0] = 'b';
    assert!(quartad_features(&broken, &[0, 1, 2, 3]).is_none());
}

#[test]
fn mirror_features_swap_rolls() {
    let layout = Layout::alphabetical();
    let mirrored = mirror_layout(&layout);
    for q in [[0u8, 1, 2, 3], [4, 5, 6, 7], [0, 4, 0, 4], [6, 7, 8, 9]] {
        let f = quartad_features(&layout, &q).unwrap();
        let g = quartad_features(&mirrored, &q).unwrap();
        for i in 0..3 {
            let (a, b) = (f.bigrams[i], g.bigrams[i]);
            assert_eq!(a.roll_out, b.roll_in);
            assert_eq!(a.roll_in, b.roll_out);
            assert_eq!(a.same_finger, b.same_finger);
            assert_eq!(a.same_hand, b.same_hand);
            assert_eq!(a.distance_sq, b.distance_sq);
            assert_eq!(a.broken_roll, b.broken_roll);
            assert_eq!(a.pinky_ring_twist, b.pinky_ring_twist);
        }
        assert_eq!(f.trigrams, g.trigrams);
        assert_eq!(f.base_tenths, g.base_tenths);
        assert_eq!(f.finger_repeat, g.finger_repeat);
        assert_eq!(f.same_hand_4, g.same_hand_4);
    }
}

#[test]
fn hand_usage_counts_and_mirror() {
    let layout = Layout::alphabetical();
    let mut m = [0usize; 26];
    for i in 0..8 {
        m[i] = 100 + i;
    }
    m[20] = 7;
    let (l, r) = hand_usage(&layout, &m).unwrap();
    assert_eq!(l, 828);
    assert_eq!(r, 7);
    let (ml, mr) = hand_usage(&mirror_layout(&layout), &m).unwrap();
    assert_eq!((ml, mr), (r, l));
}

#[test]
fn every_letter_is_typed_by_one_hand() {
    let stats = keygen::corpus::CorpusStats::from_corpus("The quick brown fox jumps over the lazy dog, again!");
    let mut layout = Layout::alphabetical();
    layout.shuffle(17);
    let (left, right) = hand_usage(&layout, &stats.monograms).unwrap();
    assert_eq!(left + right, stats.letters_len);
    assert_eq!(stats.letters_len, 40);
}

#[test]
fn hand_usage_overflow_is_reported() {
    let layout = Layout::alphabetical();
    let mut m = [0usize; 26];
    m[0] = usize::MAX;
    m[20] = 1;
    assert_eq!(hand_usage(&layout, &m), Some((usize::MAX, 1)));
    m[1] = 1;
    assert_eq!(hand_usage(&layout, &m), None);
}
