use memo_core::clock::{Global, Lamport, Local};
use memo_core::replica_context::ReplicaContext;

#[test]
fn clock_local_ticks_and_max() {
    let mut t = Local::new(4);
    assert_eq!(t, Local { replica_id: 4, seq: 0 });
    t.tick();
    t.tick();
    assert_eq!(t.seq, 2);
    assert_eq!(Local::default(), Local { replica_id: 0, seq: 0 });
    let other = Local { replica_id: 5, seq: 0 };
    assert!(t.lt(&other));
    assert_eq!(t.add(&other), other);
    let mut u = other;
    u.add_assign(&t);
    assert_eq!(u, other);
}

#[test]
fn clock_global_records_and_includes() {
    let mut v = Global::new();
    let t = Local { replica_id: 1, seq: 3 };
    // Nothing is seen before it is recorded, not even sequence number 0.
    assert!(!v.includes(&Local { replica_id: 1, seq: 0 }));
    v.record(&t);
    assert!(v.includes(&t));
    assert!(v.includes(&Local { replica_id: 1, seq: 2 }));
    assert!(!v.includes(&Local { replica_id: 1, seq: 4 }));
    assert!(!v.includes(&Local { replica_id: 2, seq: 0 }));
    // An older timestamp does not move the entry back.
    v.record(&Local { replica_id: 1, seq: 1 });
    assert!(v.includes(&t));
    let w = v.clone();
    assert!(w.includes(&t));
}

#[test]
fn clock_lamport_observe_other_replicas_only() {
    let mut c = Lamport::new(1);
    assert_eq!(c, Lamport { value: 0, replica_id: 1 });
    c.tick();
    assert_eq!(c.value, 1);
    c.observe(Lamport { value: 7, replica_id: 1 });
    assert_eq!(c.value, 1);
    let t = Lamport { value: 7, replica_id: 2 };
    c.observe(t);
    assert_eq!(c.value, 8);
    assert!(t.lt(&c));
    let max = Lamport::max_value();
    assert_eq!(max, Lamport { value: u64::MAX, replica_id: u64::MAX });
    assert!(c.lt(&max));
}

#[test]
fn replica_context_hands_out_increasing_times() {
    let mut ctx = ReplicaContext::new(9);
    assert_eq!(ctx.replica_id(), 9);
    let a = ctx.local_time();
    let b = ctx.local_time();
    assert_eq!(a, Local { replica_id: 9, seq: 1 });
    assert_eq!(b, Local { replica_id: 9, seq: 2 });
    assert!(a.lt(&b));

    let l1 = ctx.lamport_time();
    assert_eq!(l1, Lamport { value: 1, replica_id: 9 });
    ctx.observe_lamport_timestamp(Lamport { value: 20, replica_id: 3 });
    let l2 = ctx.lamport_time();
    assert_eq!(l2, Lamport { value: 22, replica_id: 9 });
    assert!(Lamport { value: 20, replica_id: 3 }.lt(&l2));
}
