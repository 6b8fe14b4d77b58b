use keygen::geometry::{Finger, Hand, Row};
use keygen::layout_26::Layout;

#[test]
fn alphabetical_layout_is_valid() {
    let layout = Layout::alphabetical();
    assert_eq!(layout.to_compact_string(), "abcdefghijklmnopqrstuvwxyz");
    assert_eq!(layout.validate(), Ok(()));
}

#[test]
fn from_string_accepts_and_lowercases() {
    let layout = Layout::from_string("QWERTY uiop asdfghjkl zxcvbnm").unwrap();
    assert_eq!(layout.to_compact_string(), "qwertyuiopasdfghjklzxcvbnm");
}

#[test]
fn from_string_wrong_length() {
    assert_eq!(
        Layout::from_string("abc").err(),
        Some("Expected 26 letters, got 3".to_string())
    );
    assert_eq!(
        Layout::from_string("abcdefghijklmnopqrstuvwxyz1a").err(),
        Some("Expected 26 letters, got 27".to_string())
    );
}

#[test]
fn from_string_duplicate_letter() {
    assert_eq!(
        Layout::from_string("abcdefghijklmnopqrstuvwxya").err(),
        Some("Duplicate letter found: 'a'".to_string())
    );
}

#[test]
fn validate_reports_first_problem() {
    let mut layout = Layout::alphabetical();
    layout.positions[3] = '1';
    layout.positions[5] = 'a';
    assert_eq!(layout.validate(), Err("Non-lowercase letter found: '1'".to_string()));
    let mut layout = Layout::alphabetical();
    layout.positions[5] = 'a';
    layout.positions[9] = '#';
    assert_eq!(layout.validate(), Err("Duplicate letter found: 'a'".to_string()));
}

#[test]
fn non_ascii_letters_are_rejected() {
    assert_eq!(
        Layout::from_string("ébcdefghijklmnopqrstuvwxyz").err(),
        Some("Non-lowercase letter found: 'é'".to_string())
    );
}

#[test]
fn swap_and_lookup() {
    let mut layout = Layout::alphabetical();
    layout.swap(0, 25);
    assert_eq!(layout.get_letter(0), Some('z'));
    assert_eq!(layout.get_letter(25), Some('a'));
    assert_eq!(layout.get_letter(26), None);
    assert_eq!(layout.get_position('A'), Some(25));
    assert_eq!(layout.get_position('z'), Some(0));
    assert_eq!(layout.get_position('1'), None);
    layout.swap(0, 25);
    assert_eq!(layout.to_compact_string(), "abcdefghijklmnopqrstuvwxyz");
}

#[test]
fn shuffle_keeps_letters() {
    let mut layout = Layout::alphabetical();
    layout.shuffle(50);
    assert_eq!(layout.validate(), Ok(()));
    let mut letters: Vec<char> = layout.positions.to_vec();
    letters.sort();
    let sorted: String = letters.into_iter().collect();
    assert_eq!(sorted, "abcdefghijklmnopqrstuvwxyz");
    let before = layout.to_compact_string();
    layout.shuffle(0);
    assert_eq!(layout.to_compact_string(), before);
}

#[test]
fn key_info_of_letters() {
    let layout = Layout::alphabetical();
    let info = layout.get_key_info('h').unwrap();
    assert_eq!(info.position, 7);
    assert_eq!(info.hand, Hand::Left);
    assert_eq!(info.finger, Finger::Middle);
    assert_eq!(info.row, Row::Home);
    assert_eq!(info.base_cost_tenths, 0);
    let info = layout.get_key_info('Q').unwrap();
    assert_eq!(info.letter, 'Q');
    assert_eq!(info.position, 16);
    assert_eq!(info.base_cost_tenths, 30);
    assert!(layout.get_key_info('!').is_none());
}

#[test]
fn display_string_draws_three_rows() {
    let layout = Layout::alphabetical();
    assert_eq!(
        layout.to_display_string(),
        "    c d e f    |   n o p q \na b g h i j    |   r s t u y z\n    k l m      |     v w x "
    );
}

#[test]
fn swapping_twice_restores_layout() {
    let start = Layout::from_string("qwertyuiopasdfghjklzxcvbnm").unwrap();
    let mut layout = start;
    layout.swap(3, 17);
    assert_eq!(layout.get_letter(3), Some('k'));
    assert_eq!(layout.get_letter(17), Some('r'));
    assert_eq!(layout.validate(), Ok(()));
    layout.swap(3, 17);
    assert_eq!(layout.to_compact_string(), start.to_compact_string());
}

#[test]
fn compact_string_round_trip() {
    let mut layout = Layout::from_string("qwertyuiopasdfghjklzxcvbnm").unwrap();
    layout.shuffle(40);
    let back = Layout::from_string(&layout.to_compact_string()).unwrap();
    assert_eq!(back.to_compact_string(), layout.to_compact_string());
}

#[test]
fn from_string_skips_ascii_non_letters() {
    let alpha = Layout::alphabetical();
    let spaced = Layout::from_string("abc def ghi jkl mno pqr stu vwx yz").unwrap();
    assert_eq!(spaced.positions, alpha.positions);
    let upper = Layout::from_string("ABCDEFGHIJKLMNOPQRSTUVWXYZ").unwrap();
    assert_eq!(upper.positions, alpha.positions);
    let punctuated = Layout::from_string("a-b,c;d.e/f 1g2h3i4j5k6l7m8n9o0p[q]r(s)t{u}v<w>x?y!z").unwrap();
    assert_eq!(punctuated.positions, alpha.positions);
}
