use persistence::assemble::assemble;
use persistence::basis::{factor, PrimeBasis};
use persistence::digits::digits;
use persistence::stars_bars::StarsBars;
use rug::Integer;

#[test]
fn assembles_the_smallest_arrangement() {
    let basis = PrimeBasis::new(10);
    assert_eq!(assemble(&basis, &vec![1, 0, 0, 0]), 2);
    assert_eq!(assemble(&basis, &vec![0, 1, 1, 0]), 35);
    assert_eq!(assemble(&basis, &vec![0, 0, 2, 0]), 55);
    assert_eq!(assemble(&basis, &vec![0, 0, 0, 2]), 77);
    assert_eq!(assemble(&basis, &vec![1, 3, 0, 1]), 679);
    assert_eq!(assemble(&basis, &vec![1, 0, 0, 3]), 2777);
    assert_eq!(assemble(&basis, &vec![0, 3, 0, 4]), 377779);
    assert_eq!(assemble(&basis, &vec![3, 2, 0, 0]), 89);
}

#[test]
fn the_zero_vector_assembles_to_zero() {
    assert_eq!(assemble(&PrimeBasis::new(10), &vec![0, 0, 0, 0]), 0);
}

#[test]
fn prefers_large_digits() {
    let basis = PrimeBasis::new(10);
    assert_eq!(assemble(&basis, &vec![2, 0, 0, 0]), 4);
    assert_eq!(assemble(&basis, &vec![1, 1, 0, 0]), 6);
    assert_eq!(assemble(&basis, &vec![2, 2, 0, 0]), 49);
    assert_eq!(assemble(&basis, &vec![4, 0, 0, 0]), 28);
}

#[test]
fn assembles_beyond_machine_words() {
    let basis = PrimeBasis::new(10);
    let expected = Integer::from_str_radix(&"7".repeat(40), 10).unwrap();
    assert_eq!(assemble(&basis, &vec![0, 0, 0, 40]), expected);
}

#[test]
fn a_prime_radix_is_left_over() {
    let basis = PrimeBasis::new(7);
    assert_eq!(assemble(&basis, &vec![0, 0, 0, 1]), 0);
    assert_eq!(assemble(&basis, &vec![1, 1, 0, 2]), 6);
}

#[test]
fn assembles_in_radix_sixteen() {
    let basis = PrimeBasis::new(16);
    assert_eq!(assemble(&basis, &vec![0, 1, 1, 0, 0, 0]), 15);
    assert_eq!(assemble(&basis, &vec![1, 0, 0, 0, 0, 1]), 2 * 16 + 13);
}

fn content(basis: &PrimeBasis, list: &[u8]) -> Vec<usize> {
    let mut total = vec![0; basis.slots()];
    for d in list {
        for (slot, e) in factor(basis, *d).iter().enumerate() {
            total[slot] += e;
        }
    }
    total
}

#[test]
fn digits_of_the_assembly_hold_the_vector() {
    let basis = PrimeBasis::new(10);
    for n in 1..7 {
        let mut walker = StarsBars::from(n, 4);
        while let Some(bins) = walker.next() {
            let list = digits(assemble(&basis, &bins), 10);
            assert!(list.iter().all(|d| *d >= 2));
            assert_eq!(content(&basis, &list), bins);
        }
    }
}

fn value(list: &[u8]) -> u64 {
    list.iter().fold(0, |v, d| v * 10 + *d as u64)
}

fn permutations(list: &mut Vec<u8>, from: usize, seen: &mut Vec<u64>) {
    if from == list.len() {
        seen.push(value(list));
        return;
    }
    for i in from..list.len() {
        list.swap(from, i);
        permutations(list, from + 1, seen);
        list.swap(from, i);
    }
}

#[test]
fn no_arrangement_of_the_digits_is_smaller() {
    let basis = PrimeBasis::new(10);
    for n in 1..6 {
        let mut walker = StarsBars::from(n, 4);
        while let Some(bins) = walker.next() {
            let assembled = assemble(&basis, &bins);
            let mut list = digits(assembled.clone(), 10);
            let mut seen = Vec::new();
            permutations(&mut list, 0, &mut seen);
            for other in seen {
                assert!(assembled <= other);
            }
        }
    }
}
