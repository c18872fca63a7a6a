use persistence::stars_bars::StarsBars;

fn all_vectors(n: usize, k: usize) -> Vec<Vec<usize>> {
    let mut walker = StarsBars::from(n, k);
    let mut all = Vec::new();
    loop {
        match walker.next() {
            Some(bins) => all.push(bins),
            None => return all,
        }
    }
}

fn binomial(a: usize, b: usize) -> usize {
    if b == 0 {
        1
    } else if a == 0 {
        0
    } else {
        binomial(a - 1, b - 1) + binomial(a - 1, b)
    }
}

#[test]
fn starts_with_all_weight_in_slot_zero() {
    let mut walker = StarsBars::from(5, 4);
    assert!(!walker.is_finished());
    assert_eq!(walker.next(), Some(vec![5, 0, 0, 0]));
    assert_eq!(walker.next(), Some(vec![4, 1, 0, 0]));
}

#[test]
fn order_of_weight_two_over_three_slots() {
    assert_eq!(
        all_vectors(2, 3),
        vec![
            vec![2, 0, 0],
            vec![1, 1, 0],
            vec![0, 2, 0],
            vec![1, 0, 1],
            vec![0, 1, 1],
            vec![0, 0, 2],
        ]
    );
}

#[test]
fn order_of_weight_one_over_four_slots() {
    assert_eq!(
        all_vectors(1, 4),
        vec![vec![1, 0, 0, 0], vec![0, 1, 0, 0], vec![0, 0, 1, 0], vec![0, 0, 0, 1]]
    );
}

#[test]
fn one_slot_yields_one_vector() {
    for n in 0..6 {
        assert_eq!(all_vectors(n, 1), vec![vec![n]]);
    }
}

#[test]
fn weight_zero_yields_the_zero_vector() {
    assert_eq!(all_vectors(0, 3), vec![vec![0, 0, 0]]);
}

#[test]
fn finished_enumerator_yields_nothing_more() {
    let mut walker = StarsBars::from(1, 2);
    assert_eq!(walker.next(), Some(vec![1, 0]));
    assert!(!walker.is_finished());
    assert_eq!(walker.next(), Some(vec![0, 1]));
    assert!(walker.is_finished());
    assert_eq!(walker.next(), None);
    assert_eq!(walker.next(), None);
    assert!(walker.is_finished());
}

#[test]
fn yields_every_composition_exactly_once() {
    for n in 0..7 {
        for k in 1..6 {
            let all = all_vectors(n, k);
            assert_eq!(all.len(), binomial(n + k - 1, k - 1));
            for bins in &all {
                assert_eq!(bins.len(), k);
                assert_eq!(bins.iter().sum::<usize>(), n);
            }
            for i in 0..all.len() {
                for j in 0..i {
                    assert_ne!(all[i], all[j]);
                }
            }
        }
    }
}

#[test]
fn counts_for_four_slots() {
    assert_eq!(all_vectors(1, 4).len(), 4);
    assert_eq!(all_vectors(2, 4).len(), 10);
    assert_eq!(all_vectors(3, 4).len(), 20);
    assert_eq!(all_vectors(10, 4).len(), 286);
}

#[test]
fn last_vector_holds_everything_in_the_last_slot() {
    let all = all_vectors(4, 3);
    assert_eq!(all[all.len() - 1], vec![0, 0, 4]);
    for bins in &all[..all.len() - 1] {
        assert!(bins[0] != 0 || bins[1] != 0);
    }
}

#[test]
fn peek_shows_the_next_vector() {
    let mut walker = StarsBars::from(3, 2);
    assert_eq!(walker.peek(), vec![3, 0]);
    assert_eq!(walker.next(), Some(vec![3, 0]));
    assert_eq!(walker.peek(), vec![2, 1]);
    assert_eq!(walker.peek(), vec![2, 1]);
}
