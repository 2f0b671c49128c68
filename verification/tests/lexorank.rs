use lexorank::{LexoRank, LexoRankKind};
use std::cmp;

#[test]
fn test_compare_positions() {
    let lexrank = LexoRank::new(LexoRankKind::FIGMA);
    assert_eq!(lexrank.compare_positions("AA", "AB"), cmp::Ordering::Less);
    assert_eq!(lexrank.compare_positions("AA", "AA"), cmp::Ordering::Equal);
    assert_eq!(lexrank.compare_positions("AA", "A0"), cmp::Ordering::Greater);
}

#[test]
fn test_is_valid_position() {
    let lexrank = LexoRank::new(LexoRankKind::FIGMA);
    assert_eq!(lexrank.is_valid_position("AA"), true);
    assert_eq!(lexrank.is_valid_position("!"), true);
    assert_eq!(lexrank.is_valid_position("~"), true);
    // Character not in ASCII 32-126
    assert_eq!(lexrank.is_valid_position("¡"), false);
}

#[test]
fn test_position_before() {
    let lexrank = LexoRank::new(LexoRankKind::FIGMA);
    assert_eq!(lexrank.position_before("C"), "B");
    assert_eq!(lexrank.position_before("AA"), "A@");
    assert_eq!(lexrank.position_before("!"), " ~");
}

#[test]
fn test_position_after() {
    let lexrank = LexoRank::new(LexoRankKind::FIGMA);
    assert_eq!(lexrank.position_after("C"), "D");
    assert_eq!(lexrank.position_after("AA"), "AB");
    assert_eq!(lexrank.position_after("~"), "~!");
}

#[test]
fn test_position_between() {
    let lexrank = LexoRank::new(LexoRankKind::FIGMA);
    assert_eq!(lexrank.position_between("A", "C"), "B");
    assert_eq!(lexrank.position_between("AA", "AB"), "AAO");
}

#[test]
fn test_invalid_positions() {
    let lexrank = LexoRank::new(LexoRankKind::FIGMA);
    // Empty candidate.
    assert_eq!(lexrank.is_valid_position(""), false);
    // Last character is the minimum of the alphabet.
    assert_eq!(lexrank.is_valid_position("A "), false);
    assert_eq!(lexrank.is_valid_position(" "), false);
    // A character below the alphabet (a tab).
    assert_eq!(lexrank.is_valid_position("A\tB"), false);
    // A space in the middle is fine as long as the string does not end in one.
    assert_eq!(lexrank.is_valid_position("A B"), true);
}

#[test]
fn test_before_and_after_respect_order() {
    let lexrank = LexoRank::new(LexoRankKind::FIGMA);
    for pos in ["C", "AA", "!", "~", " !", "zz z!", "! !"] {
        assert!(lexrank.is_valid_position(pos));
        let before = lexrank.position_before(pos);
        let after = lexrank.position_after(pos);
        assert!(lexrank.is_valid_position(&before));
        assert!(lexrank.is_valid_position(&after));
        assert_eq!(lexrank.compare_positions(&before, pos), cmp::Ordering::Less);
        assert_eq!(lexrank.compare_positions(&after, pos), cmp::Ordering::Greater);
    }
}

#[test]
fn test_between_respects_order() {
    let lexrank = LexoRank::new(LexoRankKind::FIGMA);
    for (a, b) in [
        ("A", "C"),
        ("AA", "AB"),
        ("A", "A  !"),
        ("!", "~"),
        ("A!", "A~"),
        ("AA", "AA~"),
        ("}}~", "~"),
    ] {
        assert!(lexrank.is_valid_position(a));
        assert!(lexrank.is_valid_position(b));
        assert_eq!(lexrank.compare_positions(a, b), cmp::Ordering::Less);
        let mid = lexrank.position_between(a, b);
        assert!(lexrank.is_valid_position(&mid));
        assert_eq!(lexrank.compare_positions(a, &mid), cmp::Ordering::Less);
        assert_eq!(lexrank.compare_positions(&mid, b), cmp::Ordering::Less);
    }
}

#[test]
fn test_compare_is_a_total_order() {
    let lexrank = LexoRank::new(LexoRankKind::FIGMA);
    let keys = ["A", "AA", "A0", "B", "!", "~", "~!", " ~"];
    for a in keys {
        assert_eq!(lexrank.compare_positions(a, a), cmp::Ordering::Equal);
        for b in keys {
            // Antisymmetry.
            let ab = lexrank.compare_positions(a, b);
            let ba = lexrank.compare_positions(b, a);
            assert_eq!(ab == cmp::Ordering::Less, ba == cmp::Ordering::Greater);
            assert_eq!(ab == cmp::Ordering::Equal, ba == cmp::Ordering::Equal);
            // Consistent with plain sequence comparison.
            assert_eq!(ab, a.cmp(b));
            for c in keys {
                // Transitivity.
                let bc = lexrank.compare_positions(b, c);
                if ab == cmp::Ordering::Less && bc == cmp::Ordering::Less {
                    assert_eq!(lexrank.compare_positions(a, c), cmp::Ordering::Less);
                }
            }
        }
    }
}

#[test]
fn test_no_round_trip_claim() {
    let lexrank = LexoRank::new(LexoRankKind::FIGMA);
    // Only the ordering relation is guaranteed: going after and back before
    // does not recover the original position.
    let after = lexrank.position_after("~");
    assert_eq!(lexrank.position_before(&after), "}");
    assert_ne!(lexrank.position_before(&after), "~");
}

#[test]
fn test_default_kind() {
    let kind = LexoRankKind::default();
    assert!(matches!(kind, LexoRankKind::FIGMA));
}

#[test]
fn test_avg_truncates() {
    assert_eq!(lexorank::figma::FigmaStrategy::avg(32, 126), 79);
    assert_eq!(lexorank::figma::FigmaStrategy::avg(65, 66), 65);
    assert_eq!(lexorank::figma::FigmaStrategy::avg(0, 0), 0);
}
