use memo_core::id::{LamportTimestamp, ParentRefKey, Unique};

#[test]
fn unique_ids_count_up() {
    let a = Unique::new(3);
    assert_eq!(a, Unique { replica_id: 3, seq: 0 });
    let b = a.next();
    assert_eq!(b, Unique { replica_id: 3, seq: 1 });
    assert!(a.lt(&b));
    assert!(!b.lt(&a));
    assert!(b.lt(&Unique { replica_id: 4, seq: 0 }));
    assert_eq!(a.add(&b), b);
    let mut c = b;
    c.add_assign(&a);
    assert_eq!(c, b);
}

#[test]
fn lamport_timestamps_advance() {
    let t = LamportTimestamp::new(5);
    assert_eq!(t.value(), 0);
    assert_eq!(t.replica_id(), 5);
    let u = t.inc();
    assert_eq!(u.value(), 1);
    assert_eq!(u.replica_id(), 5);
    assert!(t.lt(&u));

    let other = LamportTimestamp::new(2).inc().inc().inc();
    let v = u.update(other);
    assert_eq!(v.value(), 4);
    assert_eq!(v.replica_id(), 5);
    assert!(u.lt(&v));
    assert!(other.lt(&v));
}

#[test]
fn lamport_max_value_is_last() {
    let max = LamportTimestamp::max_value();
    assert_eq!(max.value(), u64::MAX);
    assert_eq!(max.replica_id(), u64::MAX);
    let t = LamportTimestamp::new(u64::MAX - 1).inc();
    assert!(t.lt(&max));
    assert!(!max.lt(&t));
}

#[test]
fn parent_ref_keys_compare_by_fields() {
    let a = ParentRefKey { child_id: Unique::new(1), timestamp: LamportTimestamp::new(1) };
    let b = ParentRefKey { child_id: Unique::new(1), timestamp: LamportTimestamp::new(1) };
    assert_eq!(a, b);
    let c = ParentRefKey { child_id: Unique::new(1).next(), timestamp: LamportTimestamp::new(1) };
    assert_ne!(a, c);
}
