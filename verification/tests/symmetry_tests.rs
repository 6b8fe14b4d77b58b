use keygen::layout_26::Layout;
use keygen::symmetry::{canonical_key, layout_compact_string, mirror_indices, mirror_layout};

#[test]
fn test_mirror_twice_equals_original() {
    let layout = Layout::alphabetical();
    let mirrored = mirror_layout(&layout);
    let double_mirrored = mirror_layout(&mirrored);
    assert_eq!(
        layout_compact_string(&layout),
        layout_compact_string(&double_mirrored)
    );
}

#[test]
fn test_canonical_key_same_for_mirrors() {
    let layout = Layout::alphabetical();
    let mirrored = mirror_layout(&layout);
    assert_eq!(canonical_key(&layout), canonical_key(&mirrored));
}

#[test]
fn test_specific_mirror_mappings() {
    let layout = Layout::alphabetical();
    let mirrored = mirror_layout(&layout);

    // Left pinky 0 (a) <-> Right pinky 25 (z)
    assert_eq!(layout.positions[0], mirrored.positions[25]);
    assert_eq!(layout.positions[25], mirrored.positions[0]);

    // Left pinky 1 (b) <-> Right pinky 24 (y)
    assert_eq!(layout.positions[1], mirrored.positions[24]);
    assert_eq!(layout.positions[24], mirrored.positions[1]);

    // Left top 2 (c) <-> Right top 16 (q)
    assert_eq!(layout.positions[2], mirrored.positions[16]);
    assert_eq!(layout.positions[16], mirrored.positions[2]);
}

#[test]
fn mirror_indices_are_an_involution() {
    let m = mirror_indices();
    for i in 0..26 {
        assert_eq!(m[m[i]], i);
        assert_ne!(m[i], i);
    }
}

#[test]
fn mirror_of_alphabetical_layout() {
    let mirrored = mirror_layout(&Layout::alphabetical());
    assert_eq!(layout_compact_string(&mirrored), "zyqponutsrxwvfedcjihgmlkba");
}

#[test]
fn canonical_key_is_smaller_string() {
    let layout = Layout::alphabetical();
    let s1 = layout_compact_string(&layout);
    let s2 = layout_compact_string(&mirror_layout(&layout));
    let key = canonical_key(&layout);
    assert!(key == s1 || key == s2);
    assert!(key <= s1 && key <= s2);
    assert_eq!(key, "abcdefghijklmnopqrstuvwxyz");
    let mut other = Layout::alphabetical();
    other.swap(0, 25); // z first now
    let key2 = canonical_key(&other);
    assert!(key2 <= layout_compact_string(&other));
    assert!(key2 <= layout_compact_string(&mirror_layout(&other)));
}
