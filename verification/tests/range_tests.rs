use crow_text::{Position, Range};

#[test]
fn new_normalizes_order() {
    let r = Range::new(Position::new(2, 0), Position::new(0, 0));
    assert_eq!(r.start, Position::new(0, 0));
    assert_eq!(r.end, Position::new(2, 0));
}

#[test]
fn is_empty() {
    let r = Range::new(Position::new(1, 5), Position::new(1, 5));
    assert!(r.is_empty());
}

#[test]
fn contains_position() {
    let r = Range::new(Position::new(1, 0), Position::new(1, 10));
    assert!(r.contains(Position::new(1, 0)));
    assert!(r.contains(Position::new(1, 5)));
    assert!(!r.contains(Position::new(1, 10)));
    assert!(!r.contains(Position::new(0, 5)));
}

#[test]
fn contains_range() {
    let outer = Range::new(Position::new(0, 0), Position::new(5, 0));
    let inner = Range::new(Position::new(1, 0), Position::new(3, 0));
    assert!(outer.contains_range(&inner));
    assert!(!inner.contains_range(&outer));
}

#[test]
fn intersects() {
    let a = Range::new(Position::new(0, 0), Position::new(2, 0));
    let b = Range::new(Position::new(1, 0), Position::new(3, 0));
    assert!(a.intersects(&b));
    assert!(b.intersects(&a));
}

#[test]
fn no_intersect() {
    let a = Range::new(Position::new(0, 0), Position::new(1, 0));
    let b = Range::new(Position::new(1, 0), Position::new(2, 0));
    assert!(!a.intersects(&b));
}

#[test]
fn union() {
    let a = Range::new(Position::new(1, 0), Position::new(3, 0));
    let b = Range::new(Position::new(2, 0), Position::new(5, 0));
    let u = a.union(&b);
    assert_eq!(u.start, Position::new(1, 0));
    assert_eq!(u.end, Position::new(5, 0));
}

