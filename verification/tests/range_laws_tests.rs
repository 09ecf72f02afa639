use crow_text::{Position, Range};

#[test]
fn union_covers_both_and_commutes() {
    let a = Range::new(Position::new(1, 4), Position::new(2, 0));
    let b = Range::new(Position::new(0, 9), Position::new(1, 5));
    let u = a.union(&b);
    assert!(u.contains_range(&a));
    assert!(u.contains_range(&b));
    assert_eq!(u, b.union(&a));
    assert_eq!(u.start, Position::new(0, 9));
    assert_eq!(u.end, Position::new(2, 0));
}

#[test]
fn empty_range_contains_only_start() {
    let r = Range::new(Position::new(3, 3), Position::new(3, 3));
    assert!(r.contains(Position::new(3, 3)));
    assert!(!r.contains(Position::new(3, 4)));
    assert!(!r.intersects(&r));
}

#[test]
fn column_order_within_line() {
    let r = Range::new(Position::new(4, 8), Position::new(4, 2));
    assert_eq!(r.start, Position::new(4, 2));
    assert!(r.contains(Position::new(4, 7)));
    assert!(!r.contains(Position::new(4, 8)));
    assert!(!r.contains(Position::new(5, 0)));
    assert!(r.contains_range(&r));
}
