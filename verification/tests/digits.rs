use persistence::digits::{digit_product, digits, resistance};
use persistence::large::large_to_small;
use rug::ops::Pow;
use rug::Integer;

#[test]
fn digits_of_small_numbers() {
    assert_eq!(digits(Integer::from(39), 10), vec![3, 9]);
    assert_eq!(digits(Integer::from(7), 10), vec![7]);
    assert_eq!(digits(Integer::from(100), 10), vec![1, 0, 0]);
    assert_eq!(digits(Integer::from(255), 16), vec![15, 15]);
    assert_eq!(digits(Integer::from(5), 2), vec![1, 0, 1]);
}

#[test]
fn zero_and_negative_numbers_have_no_digits() {
    assert_eq!(digits(Integer::from(0), 10), Vec::<u8>::new());
    assert_eq!(digits(Integer::from(-39), 10), Vec::<u8>::new());
}

#[test]
fn digits_of_a_number_beyond_machine_words() {
    let big = Integer::from_str_radix("123456789012345678901234567890", 10).unwrap();
    assert_eq!(
        digits(big, 10),
        vec![1, 2, 3, 4, 5, 6, 7, 8, 9, 0, 1, 2, 3, 4, 5, 6, 7, 8, 9, 0, 1, 2, 3, 4, 5, 6, 7, 8, 9, 0]
    );
}

#[test]
fn digit_products() {
    assert_eq!(digit_product(Integer::from(39), 10), 27);
    assert_eq!(digit_product(Integer::from(27), 10), 14);
    assert_eq!(digit_product(Integer::from(14), 10), 4);
    assert_eq!(digit_product(Integer::from(4), 10), 4);
    assert_eq!(digit_product(Integer::from(105), 10), 0);
    assert_eq!(digit_product(Integer::from(0), 10), 1);
    assert_eq!(digit_product(Integer::from(255), 16), 225);
}

#[test]
fn digit_product_beyond_machine_words() {
    let nines = Integer::from_str_radix("99999999999999999999999999999999999999999999999999", 10)
        .unwrap();
    let expected = Integer::from(9).pow(50);
    assert_eq!(digit_product(nines, 10), expected);
}

#[test]
fn resistance_of_a_single_digit_is_zero() {
    assert_eq!(resistance(&Integer::from(4), 10), 0);
    assert_eq!(resistance(&Integer::from(0), 10), 0);
    assert_eq!(resistance(&Integer::from(9), 10), 0);
    assert_eq!(resistance(&Integer::from(-12), 10), 0);
}

#[test]
fn resistance_of_39_is_three() {
    assert_eq!(resistance(&Integer::from(39), 10), 3);
}

#[test]
fn resistance_follows_the_recurrence() {
    for v in 10..2000u32 {
        let value = Integer::from(v);
        let next = digit_product(value.clone(), 10);
        assert_eq!(resistance(&value, 10), 1 + resistance(&next, 10));
    }
}

#[test]
fn resistance_records_in_radix_ten() {
    assert_eq!(resistance(&Integer::from(10), 10), 1);
    assert_eq!(resistance(&Integer::from(25), 10), 2);
    assert_eq!(resistance(&Integer::from(77), 10), 4);
    assert_eq!(resistance(&Integer::from(679), 10), 5);
    assert_eq!(resistance(&Integer::from(6788), 10), 6);
    assert_eq!(resistance(&Integer::from(68889), 10), 7);
    assert_eq!(resistance(&Integer::from(277777788888899u64), 10), 11);
}

#[test]
fn resistance_in_other_radices() {
    assert_eq!(resistance(&Integer::from(2), 3), 0);
    assert_eq!(resistance(&Integer::from(8), 3), 2);
    assert_eq!(resistance(&Integer::from(255), 16), 2);
}

#[test]
fn large_to_small_keeps_the_low_byte() {
    assert_eq!(large_to_small(Integer::from(7)), 7);
    assert_eq!(large_to_small(Integer::from(255)), 255);
    assert_eq!(large_to_small(Integer::from(300)), 44);
    assert_eq!(large_to_small(Integer::from(0x1_0000_0001u64)), 1);
    assert_eq!(large_to_small(Integer::from(-1)), 255);
}
