use persistence::vectors::{divides, empty_bins};

#[test]
fn empty_bins_are_zero() {
    assert_eq!(empty_bins(4), vec![0, 0, 0, 0]);
    assert_eq!(empty_bins(1), vec![0]);
    assert_eq!(empty_bins(0), Vec::<usize>::new());
}

#[test]
fn divides_compares_slot_by_slot() {
    assert!(divides(&vec![1, 0, 1, 0], &vec![1, 0, 1, 0]));
    assert!(divides(&vec![2, 3, 1, 5], &vec![1, 0, 1, 0]));
    assert!(!divides(&vec![2, 3, 0, 5], &vec![1, 0, 1, 0]));
    assert!(!divides(&vec![0, 0, 0, 0], &vec![0, 0, 0, 1]));
    assert!(divides(&vec![0, 0, 0, 0], &vec![0, 0, 0, 0]));
}

#[test]
fn divides_looks_at_shared_slots_only() {
    assert!(divides(&vec![1, 1], &vec![1, 0, 7]));
    assert!(divides(&vec![], &vec![3]));
    assert!(!divides(&vec![0, 9], &vec![1]));
}

fn small_vectors() -> Vec<Vec<usize>> {
    let mut all = Vec::new();
    for a in 0..3 {
        for b in 0..3 {
            for c in 0..3 {
                all.push(vec![a, b, c]);
            }
        }
    }
    all
}

#[test]
fn divides_is_reflexive() {
    for a in small_vectors() {
        assert!(divides(&a, &a));
    }
}

#[test]
fn divides_is_transitive() {
    let all = small_vectors();
    for a in &all {
        for b in &all {
            for c in &all {
                if divides(a, b) && divides(b, c) {
                    assert!(divides(a, c));
                }
            }
        }
    }
}

#[test]
fn divides_is_antisymmetric() {
    let all = small_vectors();
    for a in &all {
        for b in &all {
            if divides(a, b) && divides(b, a) {
                assert_eq!(a, b);
            }
        }
    }
}
