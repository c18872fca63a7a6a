use persistence::basis::{factor, PrimeBasis};

#[test]
fn basis_of_ten() {
    let basis = PrimeBasis::new(10);
    assert_eq!(basis.radix(), 10);
    assert_eq!(basis.primes(), &vec![2, 3, 5, 7]);
    assert_eq!(basis.slots(), 4);
}

#[test]
fn basis_of_three() {
    let basis = PrimeBasis::new(3);
    assert_eq!(basis.primes(), &vec![2, 3]);
    assert_eq!(basis.slots(), 2);
}

#[test]
fn basis_of_a_prime_radix_holds_the_radix() {
    assert_eq!(PrimeBasis::new(7).primes(), &vec![2, 3, 5, 7]);
    assert_eq!(PrimeBasis::new(11).primes(), &vec![2, 3, 5, 7, 11]);
    assert_eq!(PrimeBasis::new(12).primes(), &vec![2, 3, 5, 7, 11]);
}

#[test]
fn basis_of_the_largest_radix() {
    let basis = PrimeBasis::new(255);
    let primes = basis.primes();
    assert_eq!(primes.len(), 54);
    assert_eq!(primes[0], 2);
    assert_eq!(primes[53], 251);
    for pair in primes.windows(2) {
        assert!(pair[0] < pair[1]);
    }
}

#[test]
fn factor_over_ten() {
    let basis = PrimeBasis::new(10);
    assert_eq!(factor(&basis, 1), vec![0, 0, 0, 0]);
    assert_eq!(factor(&basis, 2), vec![1, 0, 0, 0]);
    assert_eq!(factor(&basis, 4), vec![2, 0, 0, 0]);
    assert_eq!(factor(&basis, 6), vec![1, 1, 0, 0]);
    assert_eq!(factor(&basis, 7), vec![0, 0, 0, 1]);
    assert_eq!(factor(&basis, 8), vec![3, 0, 0, 0]);
    assert_eq!(factor(&basis, 9), vec![0, 2, 0, 0]);
    assert_eq!(factor(&basis, 10), vec![1, 0, 1, 0]);
}

#[test]
fn factor_of_the_radix_itself() {
    assert_eq!(factor(&PrimeBasis::new(7), 7), vec![0, 0, 0, 1]);
    assert_eq!(factor(&PrimeBasis::new(12), 12), vec![2, 1, 0, 0, 0]);
    assert_eq!(factor(&PrimeBasis::new(16), 16), vec![4, 0, 0, 0, 0, 0]);
}

#[test]
fn factor_counts_the_primes_of_the_basis_only() {
    let basis = PrimeBasis::new(10);
    assert_eq!(factor(&basis, 22), vec![1, 0, 0, 0]);
    assert_eq!(factor(&basis, 13), vec![0, 0, 0, 0]);
    assert_eq!(factor(&basis, 128), vec![7, 0, 0, 0]);
    assert_eq!(factor(&basis, 210), vec![1, 1, 1, 1]);
}

#[test]
fn factors_multiply_back_to_the_number() {
    let basis = PrimeBasis::new(10);
    for x in 1..=10u8 {
        let bins = factor(&basis, x);
        let mut value = 1u32;
        for (e, p) in bins.iter().zip(basis.primes().iter()) {
            value *= (*p as u32).pow(*e as u32);
        }
        assert_eq!(value, x as u32);
    }
}
