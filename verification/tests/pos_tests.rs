//! Coordinates: parsing and the Euclidean arithmetic.
use cadastre::pos::Pos;

#[test]
fn division_rounds_to_negative_infinity() {
    assert_eq!(Pos::new(-3, -3) / 2, Pos::new(-2, -2));
}

#[test]
fn remainder_is_never_negative() {
    assert_eq!(Pos::new(-3, 7) % 4, Pos::new(1, 3));
    assert_eq!(Pos::new(-8, -1) % 4, Pos::new(0, 3));
}

#[test]
fn componentwise_arithmetic() {
    assert_eq!(Pos::new(1, 2) + Pos::new(30, 40), Pos::new(31, 42));
    assert_eq!(Pos::new(1, 2) + (10i64, 20i64), Pos::new(11, 22));
    assert_eq!(Pos::new(1, 2) - Pos::new(3, 1), Pos::new(-2, 1));
    assert_eq!(-Pos::new(5, -6), Pos::new(-5, 6));
    assert_eq!(Pos::new(2, -3) * 4, Pos::new(8, -12));
}

#[test]
fn parses_two_whitespace_separated_integers() {
    assert_eq!(Pos::from_space_separated("  12   -7 "), Some(Pos::new(12, -7)));
    assert_eq!(Pos::from_space_separated("+3 4"), Some(Pos::new(3, 4)));
    assert_eq!(Pos::from_space_separated("12"), None);
    assert_eq!(Pos::from_space_separated("1 2 3"), None);
    assert_eq!(Pos::from_space_separated("a 3"), None);
    assert_eq!(Pos::from_space_separated("9223372036854775808 0"), None);
    assert_eq!(
        Pos::from_space_separated("-9223372036854775808 9223372036854775807"),
        Some(Pos::new(i64::MIN, i64::MAX))
    );
}

#[test]
fn helpers_follow_the_components() {
    assert_eq!(Pos::zero(), Pos::new(0, 0));
    assert!(Pos::zero().is_zero());
    assert!(!Pos::new(1, 0).is_zero());
    assert_eq!(Pos::from_tuple((3, -4)), Pos::new(3, -4));
    assert_eq!(Pos::new(-3, 4).abs(), Pos::new(3, 4));
    assert_eq!(Pos::new(-3, 4).max(), 4);
    assert_eq!(Pos::new(-3, 4).min(), -3);
    assert_eq!(Pos::new(-3, 4).size(), 7);
    assert_eq!(Pos::new(1, 1).distance_to(Pos::new(4, -3)), 7);
    assert_eq!(Pos::new(-9, 0).normalize(), Pos::new(-1, 0));
}
