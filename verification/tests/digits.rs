use crypto_ticker::arith::power_of_two;
use crypto_ticker::digits::{
    digit_str, digits_of, numeral_text, relate, scale, scale_pow2, top_digit, Relation,
};
use crypto_ticker::text::chars_of;

#[test]
fn digits_stand_least_significant_first() {
    assert_eq!(digits_of(0), Vec::<u8>::new());
    assert_eq!(digits_of(7), [7]);
    assert_eq!(digits_of(1203), [3, 0, 2, 1]);
    assert_eq!(digits_of(u64::MAX).len(), 20);
}

#[test]
fn numbers_are_written_without_leading_zeros() {
    assert_eq!(numeral_text(&vec![]), "0");
    assert_eq!(numeral_text(&vec![0, 0, 0]), "0");
    assert_eq!(numeral_text(&vec![3, 0, 2, 1]), "1203");
    assert_eq!(numeral_text(&vec![0, 5, 0, 0]), "50");
    assert_eq!(numeral_text(&digits_of(u64::MAX)), "18446744073709551615");
    for d in 0..10u8 {
        assert_eq!(digit_str(d), d.to_string());
    }
}

#[test]
fn products_with_a_word() {
    assert_eq!(numeral_text(&scale(&digits_of(1203), 0)), "0");
    assert_eq!(numeral_text(&scale(&digits_of(1203), 1)), "1203");
    assert_eq!(numeral_text(&scale(&digits_of(999), 999)), "998001");
    assert_eq!(
        numeral_text(&scale(&digits_of(u64::MAX), u64::MAX)),
        "340282366920938463426481119284349108225"
    );
    assert_eq!(numeral_text(&scale(&vec![], 12)), "0");
}

#[test]
fn products_with_powers_of_two() {
    assert_eq!(numeral_text(&scale_pow2(&digits_of(3), 0)), "3");
    assert_eq!(numeral_text(&scale_pow2(&digits_of(3), 10)), "3072");
    assert_eq!(numeral_text(&scale_pow2(&digits_of(1), 128)), "340282366920938463463374607431768211456");
    assert_eq!(power_of_two(0), 1);
    assert_eq!(power_of_two(10), 1024);
    assert_eq!(power_of_two(63), 1 << 63);
}

#[test]
fn comparison_ignores_leading_zeros() {
    assert_eq!(relate(&digits_of(12), &digits_of(12)), Relation::Equal);
    assert_eq!(relate(&vec![], &vec![0, 0]), Relation::Equal);
    assert_eq!(relate(&vec![2, 1, 0, 0], &vec![2, 1]), Relation::Equal);
    assert_eq!(relate(&digits_of(99), &digits_of(100)), Relation::Below);
    assert_eq!(relate(&digits_of(100), &digits_of(99)), Relation::Above);
    assert_eq!(relate(&digits_of(1299), &digits_of(1300)), Relation::Below);
    assert_eq!(relate(&digits_of(2000), &digits_of(1999)), Relation::Above);
    assert_eq!(relate(&vec![9, 0, 0], &vec![0, 1]), Relation::Below);
}

#[test]
fn highest_digit_that_is_not_zero() {
    assert_eq!(top_digit(&vec![]), None);
    assert_eq!(top_digit(&vec![0, 0]), None);
    assert_eq!(top_digit(&vec![1, 0, 0]), Some(0));
    assert_eq!(top_digit(&vec![0, 4, 7, 0]), Some(2));
}

#[test]
fn characters_of_a_string() {
    assert_eq!(chars_of(""), Vec::<char>::new());
    assert_eq!(chars_of("aé\u{1F600}z"), ['a', 'é', '\u{1F600}', 'z']);
}
