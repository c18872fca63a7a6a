use persistence::basis::PrimeBasis;
use persistence::digits::{digit_product, resistance};
use persistence::search::{candidate, Search, Verdict};
use persistence::stars_bars::StarsBars;
use persistence::vectors::divides;
use rug::ops::Pow;
use rug::Integer;

fn improvements(radix: u8, bound: usize) -> (Vec<(Verdict, i32, Integer)>, Search) {
    let mut search = Search::new(PrimeBasis::new(radix), bound);
    let mut found = Vec::new();
    while let Some(verdict) = search.step() {
        if verdict == Verdict::NewMax || verdict == Verdict::BetterAssembly {
            found.push((verdict, search.best_resistance(), search.best_assembly().clone()));
        }
    }
    (found, search)
}

#[test]
fn candidate_values() {
    let basis = PrimeBasis::new(10);
    assert_eq!(candidate(&basis, &vec![0, 0, 0, 0]), 1);
    assert_eq!(candidate(&basis, &vec![1, 0, 0, 0]), 2);
    assert_eq!(candidate(&basis, &vec![0, 1, 1, 0]), 15);
    assert_eq!(candidate(&basis, &vec![1, 3, 0, 1]), 378);
    assert_eq!(candidate(&basis, &vec![0, 3, 0, 4]), 64827);
    assert_eq!(candidate(&basis, &vec![3, 2, 1, 1]), 2520);
}

#[test]
fn candidate_beyond_machine_words() {
    let basis = PrimeBasis::new(10);
    let expected = Integer::from(2).pow(200) * Integer::from(7).pow(90);
    assert_eq!(candidate(&basis, &vec![200, 0, 0, 90]), expected);
}

#[test]
fn records_up_to_weight_three() {
    let (found, search) = improvements(10, 3);
    assert_eq!(
        found,
        vec![
            (Verdict::NewMax, 1, Integer::from(2)),
            (Verdict::NewMax, 2, Integer::from(35)),
            (Verdict::NewMax, 3, Integer::from(55)),
            (Verdict::NewMax, 4, Integer::from(77)),
        ]
    );
    assert_eq!(search.weight(), 3);
    assert_eq!(search.tested(), 14);
    assert_eq!(search.discriminated(), 1);
    assert_eq!(search.best_resistance(), 4);
    assert_eq!(search.best_assembly(), &Integer::from(77));
}

#[test]
fn records_up_to_weight_eight() {
    let (found, search) = improvements(10, 8);
    assert_eq!(
        found,
        vec![
            (Verdict::NewMax, 1, Integer::from(2)),
            (Verdict::NewMax, 2, Integer::from(35)),
            (Verdict::NewMax, 3, Integer::from(55)),
            (Verdict::NewMax, 4, Integer::from(77)),
            (Verdict::NewMax, 5, Integer::from(2777)),
            (Verdict::BetterAssembly, 5, Integer::from(679)),
            (Verdict::NewMax, 7, Integer::from(377779)),
        ]
    );
    assert_eq!(search.tested(), 329);
    assert_eq!(search.discriminated(), 126);
}

#[test]
fn a_search_without_weights_is_done_at_once() {
    for bound in 0..2 {
        let mut search = Search::new(PrimeBasis::new(10), bound);
        assert!(search.is_done());
        assert_eq!(search.step(), None);
        assert_eq!(search.tested(), 0);
        assert_eq!(search.best_resistance(), 0);
        assert_eq!(search.best_assembly(), &Integer::from(0));
    }
}

#[test]
fn first_steps_of_a_search() {
    let mut search = Search::new(PrimeBasis::new(10), 3);
    assert!(!search.is_done());
    assert_eq!(search.weight(), 1);
    assert_eq!(search.pending(), vec![1, 0, 0, 0]);
    assert_eq!(search.step(), Some(Verdict::NewMax));
    assert_eq!(search.pending(), vec![0, 1, 0, 0]);
    assert_eq!(search.step(), Some(Verdict::NoRecord));
    assert_eq!(search.step(), Some(Verdict::NoRecord));
    assert_eq!(search.step(), Some(Verdict::NoRecord));
    assert_eq!(search.weight(), 2);
    assert_eq!(search.pending(), vec![2, 0, 0, 0]);
    assert_eq!(search.tested(), 4);
    assert_eq!(search.discriminated(), 0);
}

#[test]
fn vectors_with_the_factors_of_the_radix_are_discriminated() {
    let mut search = Search::new(PrimeBasis::new(10), 3);
    let mut verdicts = Vec::new();
    let mut vectors = Vec::new();
    loop {
        let bins = search.pending();
        match search.step() {
            Some(verdict) => {
                verdicts.push(verdict);
                vectors.push(bins);
            }
            None => break,
        }
    }
    for (bins, verdict) in vectors.iter().zip(verdicts.iter()) {
        assert_eq!(*verdict == Verdict::Discriminated, divides(bins, &vec![1, 0, 1, 0]));
    }
    assert_eq!(vectors.iter().filter(|bins| **bins == vec![1, 0, 1, 0]).count(), 1);
}

#[test]
fn discriminated_candidates_end_in_zero() {
    let basis = PrimeBasis::new(10);
    for n in 2..7 {
        let mut walker = StarsBars::from(n, 4);
        while let Some(bins) = walker.next() {
            if divides(&bins, &vec![1, 0, 1, 0]) {
                let value = candidate(&basis, &bins);
                assert_eq!(value.clone() % 10, 0);
                assert_eq!(digit_product(value.clone(), 10), 0);
                assert_eq!(resistance(&value, 10), 1);
            }
        }
    }
}

#[test]
fn the_record_never_falls() {
    let mut search = Search::new(PrimeBasis::new(10), 6);
    let mut best = search.best_resistance();
    let mut assembled = search.best_assembly().clone();
    while let Some(verdict) = search.step() {
        let now = search.best_resistance();
        let number = search.best_assembly().clone();
        assert!(now >= best);
        match verdict {
            Verdict::NewMax => assert!(now > best),
            Verdict::BetterAssembly => assert!(now == best && number < assembled),
            _ => assert!(now == best && number == assembled),
        }
        best = now;
        assembled = number;
    }
}

#[test]
fn search_in_a_prime_radix() {
    let (found, search) = improvements(7, 3);
    assert_eq!(
        found,
        vec![
            (Verdict::NewMax, 1, Integer::from(2)),
            (Verdict::NewMax, 2, Integer::from(24)),
            (Verdict::BetterAssembly, 2, Integer::from(19)),
            (Verdict::NewMax, 3, Integer::from(40)),
        ]
    );
    assert_eq!(search.tested(), 14);
    assert_eq!(search.discriminated(), 5);
}

#[test]
fn run_looks_at_everything_below_the_bound() {
    let mut search = Search::new(PrimeBasis::new(10), 8);
    search.run();
    assert!(search.is_done());
    assert_eq!(search.weight(), 8);
    assert_eq!(search.pending(), vec![8, 0, 0, 0]);
    assert_eq!(search.tested(), 329);
    assert_eq!(search.discriminated(), 126);
    assert_eq!(search.best_resistance(), 7);
    assert_eq!(search.best_assembly(), &Integer::from(377779));
    assert_eq!(search.step(), None);
}

#[test]
fn run_finishes_a_search_that_was_stepped() {
    let mut stepped = Search::new(PrimeBasis::new(10), 5);
    for _ in 0..7 {
        assert!(stepped.step().is_some());
    }
    stepped.run();
    let mut whole = Search::new(PrimeBasis::new(10), 5);
    whole.run();
    assert_eq!(stepped.tested(), whole.tested());
    assert_eq!(stepped.discriminated(), whole.discriminated());
    assert_eq!(stepped.best_resistance(), whole.best_resistance());
    assert_eq!(stepped.best_assembly(), whole.best_assembly());
    assert_eq!(stepped.tested(), 4 + 10 + 20 + 35);
}

#[test]
fn the_search_knows_its_basis() {
    let search = Search::new(PrimeBasis::new(12), 2);
    assert_eq!(search.basis().radix(), 12);
    assert_eq!(search.basis().primes(), &vec![2, 3, 5, 7, 11]);
    assert_eq!(search.pending(), vec![1, 0, 0, 0, 0]);
}

#[test]
fn records_through_weight_three() {
    let (found, search) = improvements(10, 4);
    assert_eq!(
        found,
        vec![
            (Verdict::NewMax, 1, Integer::from(2)),
            (Verdict::NewMax, 2, Integer::from(35)),
            (Verdict::NewMax, 3, Integer::from(55)),
            (Verdict::NewMax, 4, Integer::from(77)),
        ]
    );
    assert_eq!(search.weight(), 4);
    assert_eq!(search.tested(), 34);
    assert_eq!(search.discriminated(), 5);
    assert_eq!(search.best_resistance(), 4);
    assert_eq!(search.best_assembly(), &Integer::from(77));
}
