use memo_core::Point;
use std::cmp::Ordering;

#[test]
fn point_constructors() {
    let p = Point::new(3, 7);
    assert_eq!(p.row, 3);
    assert_eq!(p.column, 7);
    assert!(Point::zero().is_zero());
    assert!(!p.is_zero());
    assert!(!Point::new(0, 1).is_zero());
    assert!(!Point::new(1, 0).is_zero());
}

#[test]
fn point_add_continues_last_row() {
    // An extent without newline extends the columns of the last row.
    assert_eq!(Point::new(2, 3).add(&Point::new(0, 4)), Point::new(2, 7));
    // An extent with a newline replaces the column.
    assert_eq!(Point::new(2, 3).add(&Point::new(1, 4)), Point::new(3, 4));

    let mut p = Point::new(1, 1);
    p.add_assign(&Point::new(0, 5));
    assert_eq!(p, Point::new(1, 6));
    p.add_assign(&Point::new(2, 0));
    assert_eq!(p, Point::new(3, 0));
}

#[test]
fn point_sub_undoes_add() {
    let a = Point::new(4, 2);
    for b in [Point::new(0, 0), Point::new(0, 9), Point::new(3, 1), Point::new(1, 0)] {
        let sum = a.add(&b);
        assert!(a.le(&sum));
        assert_eq!(sum.sub(&a), b);
    }
    assert_eq!(Point::new(5, 3).sub(&Point::new(5, 1)), Point::new(0, 2));
    assert_eq!(Point::new(5, 3).sub(&Point::new(2, 8)), Point::new(3, 3));
}

#[test]
fn point_zero_is_identity() {
    let p = Point::new(6, 2);
    assert_eq!(Point::zero().add(&p), p);
    assert_eq!(p.add(&Point::zero()), p);
}

#[test]
fn point_order_is_row_major() {
    assert!(Point::new(0, 9).le(&Point::new(1, 0)));
    assert!(Point::new(1, 2).le(&Point::new(1, 2)));
    assert!(Point::new(1, 2).le(&Point::new(1, 3)));
    assert!(!Point::new(1, 3).le(&Point::new(1, 2)));
    assert!(!Point::new(2, 0).le(&Point::new(1, 9)));
}

#[test]
fn point_add_is_associative() {
    let a = Point::new(1, 2);
    let b = Point::new(0, 3);
    let c = Point::new(2, 1);
    assert_eq!(a.add(&b).add(&c), a.add(&b.add(&c)));
    let d = Point::new(0, 4);
    assert_eq!(a.add(&b).add(&d), a.add(&b.add(&d)));
}

#[test]
fn point_cmp_is_row_major() {
    assert_eq!(Point::new(0, 9).cmp(&Point::new(1, 0)), Ordering::Less);
    assert_eq!(Point::new(1, 0).cmp(&Point::new(0, 9)), Ordering::Greater);
    assert_eq!(Point::new(2, 3).cmp(&Point::new(2, 3)), Ordering::Equal);
    assert_eq!(Point::new(2, 3).cmp(&Point::new(2, 4)), Ordering::Less);
    assert_eq!(Point::new(2, 5).cmp(&Point::new(2, 4)), Ordering::Greater);
    assert_eq!(Point::new(u32::MAX, 0).cmp(&Point::new(0, u32::MAX)), Ordering::Greater);
}
