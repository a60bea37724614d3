use memo_core::fragment_id::FragmentId;
use rand::{Rng, SeedableRng, StdRng};

fn id(entries: &[u16]) -> FragmentId {
    FragmentId::from_entries(entries.to_vec())
}

#[test]
fn fragment_id_bounds() {
    assert_eq!(FragmentId::min_value(), id(&[0]));
    assert_eq!(FragmentId::max_value(), id(&[u16::MAX]));
    assert!(FragmentId::min_value().lt(&FragmentId::max_value()));
}

#[test]
fn fragment_id_between_takes_midpoint() {
    assert_eq!(FragmentId::between_with_max(&id(&[0]), &id(&[4]), 4), id(&[2]));
    assert_eq!(FragmentId::between_with_max(&id(&[2]), &id(&[4]), 4), id(&[3]));
    // Neighbours copy the left entry and go one level deeper.
    assert_eq!(FragmentId::between_with_max(&id(&[3]), &id(&[4]), 4), id(&[3, 2]));
    assert_eq!(FragmentId::between_with_max(&id(&[3, 2]), &id(&[4]), 4), id(&[3, 3]));
    assert_eq!(
        FragmentId::between(&FragmentId::min_value(), &FragmentId::max_value()),
        id(&[32767])
    );
}

#[test]
fn fragment_id_order_is_lexicographic() {
    assert!(id(&[1]).lt(&id(&[1, 0])));
    assert!(id(&[1, 5]).lt(&id(&[2])));
    assert!(!id(&[2]).lt(&id(&[1, 5])));
    assert!(!id(&[3]).lt(&id(&[3])));
}

#[test]
fn fragment_ids_between_neighbours() {
    for seed in 0..10u64 {
        let mut state = seed.wrapping_mul(6364136223846793005).wrapping_add(1442695040888963407);
        let mut ids = vec![id(&[0]), id(&[4])];
        for _ in 0..100 {
            state = state.wrapping_mul(6364136223846793005).wrapping_add(1442695040888963407);
            let index = 1 + (state >> 33) as usize % (ids.len() - 1);
            let left = ids[index - 1].clone();
            let right = ids[index].clone();
            let between = FragmentId::between_with_max(&left, &right, 4);
            assert!(left.lt(&between));
            assert!(between.lt(&right));
            ids.insert(index, between);
            for pair in ids.windows(2) {
                assert!(pair[0].lt(&pair[1]));
            }
        }
    }
}

#[test]
fn test_fragment_ids() {
    for seed in 0..10 {
        let mut rng = StdRng::from_seed(&[seed]);

        let mut ids = vec![FragmentId::from_entries(vec![0]), FragmentId::from_entries(vec![4])];
        for _i in 0..100 {
            let index = rng.gen_range::<usize>(1, ids.len());

            let left = ids[index - 1].clone();
            let right = ids[index].clone();
            ids.insert(index, FragmentId::between_with_max(&left, &right, 4));

            let mut sorted_ids = ids.clone();
            sorted_ids.sort_by(|a, b| a.entries().cmp(b.entries()));
            assert_eq!(ids, sorted_ids);
        }
    }
}
