use amount::amount::{Amount, AmountParseError};
use amount::bid::BidAmount;

use std::collections::hash_map::DefaultHasher;
use std::hash::{Hash, Hasher};

#[test]
fn constructor_from_str_works() {
    let am = Amount::new_from_str("44.12");
    assert_eq!(am.as_int, 4412);
}

#[test]
fn constructor_default_works() {
    let am = Amount::new();
    assert_eq!(am.as_int, 0);
}

#[test]
#[should_panic]
fn bad_constructor_panics() {
    Amount::new_from_str("asda");
}

#[test]
fn multiply_by_zero() {
    let mut am = Amount::new_from_str("44.12");
    am.mul_assign(0);
    assert_eq!(am.as_int, 0);
}

#[test]
fn multiply_by_ten() {
    let mut am = Amount::new_from_str("44.12");
    am.mul_assign(10);
    assert_eq!(am.as_int, 44120);
}

#[test]
fn add_two_amounts() {
    let mut am1 = Amount::new_from_str("44.12");
    let am2 = Amount::new_from_str("45.80");
    am1.add_assign(am2);
    assert_eq!(am1.as_int, 8992);
}

#[test]
fn display_works() {
    let input_string = "44.12";
    let am1 = Amount::new_from_str(input_string);
    let res = am1.display();
    assert_eq!(res, input_string);
}

#[test]
fn convert_from_bidamount_to_amount() {
    let ba = BidAmount::new();
    let a: Amount = ba.into();
    assert_eq!(a, Amount::new());
}

#[test]
fn convert_from_ref_bidamount_to_amount() {
    let ba = BidAmount::new();
    let a: &Amount = &ba.into();
    assert_eq!(a, &Amount::new());
}

#[test]
fn convert_by_reference_copies_cents() {
    let ba = BidAmount { as_int: 4412 };
    let a: Amount = (&ba).into();
    assert_eq!(a.as_int, 4412);
}

#[test]
fn multiply_producing_new_amount() {
    let am = Amount::new_from_str("44.12");
    assert_eq!(am.mul(0).as_int, 0);
    assert_eq!(am.mul(10).as_int, 44120);
}

#[test]
fn add_and_display_round() {
    let mut am1 = Amount::new_from_str("44.12");
    let am2 = Amount::new_from_str("45.80");
    am1.add_assign(am2);
    assert_eq!(am1.display(), "89.92");
}

#[test]
fn checked_parse_rejects_garbage() {
    assert_eq!(Amount::from_str_checked("asda"), Err(AmountParseError::Invalid));
    assert_eq!(Amount::from_str_checked(""), Err(AmountParseError::Invalid));
    assert_eq!(Amount::from_str_checked("."), Err(AmountParseError::Invalid));
    assert_eq!(Amount::from_str_checked("-"), Err(AmountParseError::Invalid));
    assert_eq!(Amount::from_str_checked("1.2.3"), Err(AmountParseError::Invalid));
    assert_eq!(Amount::from_str_checked("4 4"), Err(AmountParseError::Invalid));
    assert_eq!(Amount::from_str_checked("12a"), Err(AmountParseError::Invalid));
}

#[test]
fn checked_parse_accepts_plain_forms() {
    assert_eq!(Amount::from_str_checked("5").unwrap().as_int, 500);
    assert_eq!(Amount::from_str_checked("+5").unwrap().as_int, 500);
    assert_eq!(Amount::from_str_checked("-3.5").unwrap().as_int, -350);
    assert_eq!(Amount::from_str_checked("5.").unwrap().as_int, 500);
    assert_eq!(Amount::from_str_checked(".5").unwrap().as_int, 50);
    assert_eq!(Amount::from_str_checked("0.00").unwrap().as_int, 0);
}

#[test]
fn parse_rounds_half_away_from_zero() {
    assert_eq!(Amount::from_str_checked("1.005").unwrap().as_int, 101);
    assert_eq!(Amount::from_str_checked("1.004999").unwrap().as_int, 100);
    assert_eq!(Amount::from_str_checked("-1.005").unwrap().as_int, -101);
    assert_eq!(Amount::from_str_checked("0.005").unwrap().as_int, 1);
    assert_eq!(Amount::from_str_checked("44.129").unwrap().as_int, 4413);
}

#[test]
fn parse_range_boundaries() {
    assert_eq!(
        Amount::from_str_checked("92233720368547758.07").unwrap().as_int,
        i64::MAX
    );
    assert_eq!(
        Amount::from_str_checked("92233720368547758.08"),
        Err(AmountParseError::OutOfRange)
    );
    assert_eq!(
        Amount::from_str_checked("-92233720368547758.08").unwrap().as_int,
        i64::MIN
    );
    assert_eq!(
        Amount::from_str_checked("-92233720368547758.09"),
        Err(AmountParseError::OutOfRange)
    );
    assert_eq!(
        Amount::from_str_checked("99999999999999999999"),
        Err(AmountParseError::OutOfRange)
    );
}

#[test]
fn display_canonicalizes_loose_input() {
    assert_eq!(Amount::new_from_str("007").display(), "7.00");
    assert_eq!(Amount::new_from_str("+5").display(), "5.00");
    assert_eq!(Amount::new_from_str("-0.00").display(), "0.00");
    assert_eq!(Amount::new_from_str("44.1").display(), "44.10");
}

#[test]
fn display_small_magnitudes() {
    assert_eq!(Amount { as_int: -5 }.display(), "-0.05");
    assert_eq!(Amount { as_int: 0 }.display(), "0.00");
    assert_eq!(Amount { as_int: 5 }.display(), "0.05");
    assert_eq!(Amount { as_int: 9 }.display(), "0.09");
}

#[test]
fn display_parse_round_trip_samples() {
    for cents in [-123456, -100, -5, 0, 1, 9, 99, 100, 4412, 8992, i64::MAX, i64::MIN] {
        let shown = Amount { as_int: cents }.display();
        assert_eq!(Amount::from_str_checked(&shown).unwrap().as_int, cents);
    }
}

#[test]
fn equal_ints_mean_equal_amounts_and_hashes() {
    let a = Amount { as_int: 4412 };
    let b = Amount { as_int: 4412 };
    assert_eq!(a, b);
    let mut ha = DefaultHasher::new();
    a.hash(&mut ha);
    let mut hb = DefaultHasher::new();
    b.hash(&mut hb);
    assert_eq!(ha.finish(), hb.finish());
}

#[test]
fn amounts_order_like_their_ints() {
    assert!(Amount { as_int: 100 } < Amount { as_int: 200 });
    assert!(Amount { as_int: -1 } < Amount { as_int: 0 });
    assert!(Amount { as_int: 200 } > Amount { as_int: 100 });
    assert_eq!(
        Amount { as_int: 100 }.cmp(&Amount { as_int: 200 }),
        std::cmp::Ordering::Less
    );
}

#[test]
fn checked_arithmetic_reports_overflow() {
    let top = Amount { as_int: i64::MAX };
    let one = Amount { as_int: 1 };
    assert_eq!(top.checked_add(one), None);
    assert_eq!(one.checked_add(one).unwrap().as_int, 2);
    assert_eq!(top.checked_mul(2), None);
    assert_eq!(Amount { as_int: 4412 }.checked_mul(10).unwrap().as_int, 44120);
}

#[test]
fn default_is_zero() {
    let am: Amount = Default::default();
    assert_eq!(am, Amount::new());
}
