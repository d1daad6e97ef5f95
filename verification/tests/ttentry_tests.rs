use connect4::ttentry::TTEntry;

#[test]
fn test_score_encoding() {
    for val in -63..=63 {
        let entry = TTEntry::new(0, val, 0);
        assert_eq!(
            entry.score(),
            val,
            "Score encoding/decoding failed for {}",
            val
        );
    }
}

#[test]
fn test_depth_encoding() {
    for depth in 0..=127 {
        let entry = TTEntry::new(depth, 0, 0);
        assert_eq!(
            entry.depth(),
            depth,
            "Depth encoding/decoding failed for {}",
            depth
        );
    }
}

#[test]
fn test_flag_encoding() {
    let entry1 = TTEntry::new(0, 0, -1);
    assert_eq!(entry1.flag(), -1);

    let entry2 = TTEntry::new(0, 0, 1);
    assert_eq!(entry2.flag(), 1);

    let entry3 = TTEntry::new(0, 0, 0);
    assert_eq!(entry3.flag(), 0);
}

#[test]
fn test_combined_encoding() {
    let entry = TTEntry::new(42, -17, 1);
    assert_eq!(entry.depth(), 42);
    assert_eq!(entry.score(), -17);
    assert_eq!(entry.flag(), 1);
}

#[test]
fn test_extreme_round_trips() {
    let entry = TTEntry::new(127, 63, -1);
    assert_eq!(entry.depth(), 127);
    assert_eq!(entry.score(), 63);
    assert_eq!(entry.flag(), -1);

    let entry = TTEntry::new(0, -63, 1);
    assert_eq!(entry.depth(), 0);
    assert_eq!(entry.score(), -63);
    assert_eq!(entry.flag(), 1);

    let entry = TTEntry::new(1, 0, 0);
    assert_eq!(entry.depth(), 1);
    assert_eq!(entry.score(), 0);
    assert_eq!(entry.flag(), 0);
}
