use fuko::amount::Amount;
use fuko::date::Date;
use fuko::names::get_or_insert;

#[test]
fn date_reads_year_and_month() {
    let d = Date::from("2024-01");
    assert_eq!(d.year, 2024);
    assert_eq!(d.month, 1);
    assert_eq!(Date::from("2024-1"), Date { year: 2024, month: 1 });
    assert_eq!(Date::from("+7-+012"), Date { year: 7, month: 12 });
    assert_eq!(Date::from("2024-01-15"), Date { year: 2024, month: 1 });
    assert_eq!(Date::from("4294967295-0"), Date { year: 4294967295, month: 0 });
}

#[test]
fn date_parse_refuses_what_is_no_period() {
    assert_eq!(Date::parse("2024-02"), Some(Date { year: 2024, month: 2 }));
    assert_eq!(Date::parse(""), None);
    assert_eq!(Date::parse("2024"), None);
    assert_eq!(Date::parse("2024-"), None);
    assert_eq!(Date::parse("-02"), None);
    assert_eq!(Date::parse("2024-0x"), None);
    assert_eq!(Date::parse("+-1"), None);
    assert_eq!(Date::parse("20 24-01"), None);
    assert_eq!(Date::parse("4294967296-01"), None);
    assert_eq!(Date::parse("99999999999999999999-01"), None);
    assert_eq!(Date::parse("0000000000000000000001-01"), Some(Date { year: 1, month: 1 }));
}

#[test]
fn date_after_orders_by_year_then_month() {
    let a = Date { year: 2024, month: 2 };
    assert!(a.after(&Date { year: 2024, month: 1 }));
    assert!(a.after(&Date { year: 2023, month: 12 }));
    assert!(!a.after(&Date { year: 2024, month: 2 }));
    assert!(!a.after(&Date { year: 2024, month: 3 }));
    assert!(!a.after(&Date { year: 2025, month: 1 }));
}

#[test]
fn date_prints_month_in_two_digits() {
    let d = Date { year: 2024, month: 2 };
    assert_eq!(d.to_string(), "2024-02");
    let e = Date { year: 987, month: 112 };
    assert_eq!(e.to_string(), "987-112");
    assert_eq!(Date { year: 0, month: 0 }.to_string(), "0-00");
    assert_eq!(Date { year: 1, month: 10 }.to_string(), "1-10");
}

#[test]
fn names_are_indexed_by_first_occurrence() {
    let mut v: Vec<String> = Vec::new();
    assert_eq!(get_or_insert(&mut v, "a"), (0, true));
    assert_eq!(get_or_insert(&mut v, "b"), (1, true));
    assert_eq!(get_or_insert(&mut v, "a"), (0, false));
    assert_eq!(get_or_insert(&mut v, ""), (2, true));
    assert_eq!(v, vec!["a".to_string(), "b".to_string(), "".to_string()]);
}

#[test]
fn amounts_add_exactly() {
    let third = Amount::from_u64(1).checked_div(&Amount::from_u64(3)).unwrap();
    let sum = third.add(&third).add(&third);
    assert!(sum.same(&Amount::from_u64(1)));
    assert!(!third.same(&Amount::from_u64(0)));
    assert!(!third.add(&third).same(&third));
}

#[test]
fn amounts_subtract_multiply_and_divide() {
    let seven = Amount::from_u64(7);
    let two = Amount::from_u64(2);
    assert!(seven.checked_sub(&two).unwrap().same(&Amount::from_u64(5)));
    assert!(seven.checked_sub(&seven).unwrap().is_zero());
    assert!(two.checked_sub(&seven).is_none());
    assert!(seven.checked_mul(&two).unwrap().same(&Amount::from_u64(14)));
    let half7 = seven.checked_div(&two).unwrap();
    assert!(half7.add(&half7).same(&seven));
    assert!(!half7.same(&seven));
    assert!(seven.checked_div(&Amount::zero()).is_none());
    assert!(Amount::zero().checked_div(&seven).unwrap().is_zero());
}

#[test]
fn amounts_compare_as_numbers() {
    let a = Amount::from_u64(1).checked_div(&Amount::from_u64(3)).unwrap();
    let b = Amount::from_u64(1).checked_div(&Amount::from_u64(2)).unwrap();
    assert!(a.lt(&b));
    assert!(!b.lt(&a));
    assert!(!a.lt(&a));
    assert!(a.le(&a));
    assert!(a.le(&b));
    assert!(!b.le(&a));
    let big = Amount::from_u64(u64::MAX);
    assert!(big.lt(&big.add(&Amount::from_u64(1))));
    assert!(big.checked_mul(&big).unwrap().checked_div(&big).unwrap().same(&big));
}

#[test]
fn unbounded_amount_is_above_every_number() {
    let inf = Amount::infinity();
    let n = Amount::from_u64(u64::MAX);
    assert!(inf.is_infinite());
    assert!(!n.is_infinite());
    assert!(n.lt(&inf));
    assert!(!inf.lt(&n));
    assert!(!inf.lt(&inf));
    assert!(inf.same(&Amount::infinity()));
    assert!(n.add(&inf).is_infinite());
    assert!(inf.checked_sub(&n).is_none());
    assert!(n.checked_sub(&inf).is_none());
    assert!(inf.checked_mul(&n).is_none());
    assert!(n.checked_div(&inf).is_none());
    assert!(!inf.is_zero());
}

#[test]
fn amounts_are_built_from_digits() {
    let two_pow_32 = Amount::from_digits(vec![0, 1], vec![1]).unwrap();
    assert!(two_pow_32.same(&Amount::from_u64(1 << 32)));
    let half = Amount::from_digits(vec![3], vec![6, 0]).unwrap();
    assert!(half.add(&half).same(&Amount::from_u64(1)));
    assert!(Amount::from_digits(vec![1], vec![]).is_none());
    assert!(Amount::from_digits(vec![1], vec![0, 0]).is_none());
    assert!(Amount::from_digits(vec![], vec![5]).unwrap().is_zero());
    let n = Amount::from_usize(usize::MAX);
    assert!(n.same(&Amount::from_u64(usize::MAX as u64)));
    let sum = Amount::from_u64(u64::MAX).add(&Amount::from_u64(1));
    assert_eq!(sum.numer_digits(), vec![0, 0, 1]);
    assert_eq!(sum.denom_digits(), vec![1]);
    assert!(Amount::from_u64(5).dup().same(&Amount::from_u64(5)));
}

#[test]
fn date_written_and_read_back_is_the_same() {
    for d in [
        Date { year: 2024, month: 2 },
        Date { year: 0, month: 0 },
        Date { year: 7, month: 10 },
        Date { year: 4294967295, month: 4294967295 },
    ] {
        assert_eq!(Date::parse(&d.to_string()), Some(d));
    }
}
