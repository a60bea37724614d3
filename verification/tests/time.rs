use memo_core::time::{Global, Lamport, Local};
use std::cmp::Ordering;

#[test]
fn local_ticks_hand_out_consecutive_values() {
    let mut clock = Local::new(7);
    assert_eq!(clock, Local { replica_id: 7, value: 1 });
    assert_eq!(clock.tick(), Local { replica_id: 7, value: 1 });
    assert_eq!(clock.tick(), Local { replica_id: 7, value: 2 });
    assert_eq!(clock, Local { replica_id: 7, value: 3 });
}

#[test]
fn local_observe_only_follows_own_replica() {
    let mut clock = Local::new(1);
    clock.observe(Local { replica_id: 2, value: 40 });
    assert_eq!(clock.value, 1);
    clock.observe(Local { replica_id: 1, value: 10 });
    assert_eq!(clock.value, 11);
    clock.observe(Local { replica_id: 1, value: 3 });
    assert_eq!(clock.value, 11);
    // Whatever it observed of its own replica, it hands out later values.
    let t = clock.tick();
    assert!(Local { replica_id: 1, value: 10 }.lt(&t));
}

#[test]
fn local_order_and_max() {
    let a = Local { replica_id: 1, value: 9 };
    let b = Local { replica_id: 2, value: 1 };
    let c = Local { replica_id: 2, value: 5 };
    assert!(a.lt(&b));
    assert!(b.lt(&c));
    assert!(!c.lt(&b));
    assert!(!a.lt(&a));
    assert_eq!(a.add(&b), b);
    assert_eq!(c.add(&b), c);
    let mut d = b;
    d.add_assign(&a);
    assert_eq!(d, b);
    d.add_assign(&c);
    assert_eq!(d, c);
}

#[test]
fn lamport_tick_and_observe() {
    let mut clock = Lamport::new(3);
    assert_eq!(clock, Lamport { value: 1, replica_id: 3 });
    assert_eq!(clock.tick(), Lamport { value: 1, replica_id: 3 });
    assert_eq!(clock.tick(), Lamport { value: 2, replica_id: 3 });
    clock.observe(Lamport { value: 10, replica_id: 4 });
    assert_eq!(clock.value, 11);
    clock.observe(Lamport { value: 4, replica_id: 4 });
    assert_eq!(clock.value, 12);
    let t = clock.tick();
    assert_eq!(t, Lamport { value: 12, replica_id: 3 });
    assert!(Lamport { value: 10, replica_id: 4 }.lt(&t));
}

#[test]
fn lamport_order_breaks_ties_by_replica() {
    let a = Lamport { value: 2, replica_id: 9 };
    let b = Lamport { value: 3, replica_id: 1 };
    let c = Lamport { value: 3, replica_id: 2 };
    assert!(a.lt(&b));
    assert!(b.lt(&c));
    assert!(!c.lt(&a));
    assert!(!b.lt(&b));
}

#[test]
fn global_observe_and_get() {
    let mut v = Global::new();
    assert_eq!(v.get(1), 0);
    assert!(!v.observed(Local { replica_id: 1, value: 1 }));
    v.observe(Local { replica_id: 1, value: 5 });
    v.observe(Local { replica_id: 1, value: 3 });
    v.observe(Local { replica_id: 2, value: 1 });
    assert_eq!(v.get(1), 5);
    assert_eq!(v.get(2), 1);
    assert_eq!(v.get(3), 0);
    assert!(v.observed(Local { replica_id: 1, value: 5 }));
    assert!(v.observed(Local { replica_id: 1, value: 4 }));
    assert!(!v.observed(Local { replica_id: 1, value: 6 }));
}

#[test]
fn global_observe_all_joins() {
    let mut a = Global::new();
    a.observe(Local { replica_id: 1, value: 5 });
    a.observe(Local { replica_id: 2, value: 1 });
    let mut b = Global::new();
    b.observe(Local { replica_id: 2, value: 4 });
    b.observe(Local { replica_id: 3, value: 2 });

    let mut ab = a.clone();
    ab.observe_all(&b);
    let mut ba = b.clone();
    ba.observe_all(&a);
    for id in 0..5 {
        assert_eq!(ab.get(id), std::cmp::max(a.get(id), b.get(id)));
        assert_eq!(ab.get(id), ba.get(id));
    }
    assert_eq!(ab.partial_cmp(&ba), Some(Ordering::Equal));
    // Observing again changes nothing.
    let mut again = ab.clone();
    again.observe_all(&b);
    assert_eq!(again.partial_cmp(&ab), Some(Ordering::Equal));
}

#[test]
fn global_changed_since_and_order() {
    let mut a = Global::new();
    a.observe(Local { replica_id: 1, value: 5 });
    let mut b = a.clone();
    assert!(!b.changed_since(&a));
    assert_eq!(a.partial_cmp(&b), Some(Ordering::Equal));

    b.observe(Local { replica_id: 2, value: 1 });
    assert!(b.changed_since(&a));
    assert!(!a.changed_since(&b));
    assert_eq!(a.partial_cmp(&b), Some(Ordering::Less));
    assert_eq!(b.partial_cmp(&a), Some(Ordering::Greater));

    a.observe(Local { replica_id: 1, value: 6 });
    assert!(a.changed_since(&b));
    assert!(b.changed_since(&a));
    assert_eq!(a.partial_cmp(&b), None);
    assert_eq!(b.partial_cmp(&a), None);
}
