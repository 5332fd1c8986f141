use tx_ledger::Money;

#[test]
fn zero_is_zero() {
    assert!(Money::zero().is_zero());
    assert!(!Money::from_units(1).is_zero());
}

#[test]
fn add_is_checked() {
    let a = Money::from_units(30000);
    let b = Money::from_units(45000);
    assert_eq!(a.add(b), Some(Money::from_units(75000)));
    let max = Money::from_units(u64::MAX);
    assert_eq!(max.add(Money::from_units(1)), None);
    assert_eq!(max.add(Money::zero()), Some(max));
}

#[test]
fn checked_sub_refuses_to_go_negative() {
    let a = Money::from_units(30000);
    let b = Money::from_units(45000);
    assert_eq!(b.checked_sub(a), Some(Money::from_units(15000)));
    assert_eq!(a.checked_sub(b), None);
    assert_eq!(a.checked_sub(a), Some(Money::zero()));
}

#[test]
fn parse_reads_whole_and_fractional_amounts() {
    assert_eq!(Money::parse(b"2"), Some(Money::from_units(20000)));
    assert_eq!(Money::parse(b"2.5"), Some(Money::from_units(25000)));
    assert_eq!(Money::parse(b"2.50"), Some(Money::from_units(25000)));
    assert_eq!(Money::parse(b"0.0001"), Some(Money::from_units(1)));
    assert_eq!(Money::parse(b"1.2345"), Some(Money::from_units(12345)));
    assert_eq!(Money::parse(b"10.50"), Some(Money::from_units(105000)));
    assert_eq!(Money::parse(b"0"), Some(Money::zero()));
    assert_eq!(Money::parse(b"007"), Some(Money::from_units(70000)));
}

#[test]
fn parse_rejects_malformed_text() {
    assert_eq!(Money::parse(b""), None);
    assert_eq!(Money::parse(b"."), None);
    assert_eq!(Money::parse(b".5"), None);
    assert_eq!(Money::parse(b"1."), None);
    assert_eq!(Money::parse(b"1.23456"), None);
    assert_eq!(Money::parse(b"abc"), None);
    assert_eq!(Money::parse(b"1.2.3"), None);
    assert_eq!(Money::parse(b"-1"), None);
    assert_eq!(Money::parse(b"1 "), None);
    assert_eq!(Money::parse(b"+1"), None);
}

#[test]
fn parse_refuses_amounts_that_do_not_fit() {
    assert_eq!(
        Money::parse(b"1844674407370955.1615"),
        Some(Money::from_units(u64::MAX))
    );
    assert_eq!(Money::parse(b"1844674407370955.1616"), None);
    assert_eq!(Money::parse(b"99999999999999999999"), None);
    assert_eq!(Money::parse(b"00000000000000000000000000001"), Some(Money::from_units(10000)));
}

#[test]
fn format_renders_the_shortest_decimal_form() {
    assert_eq!(Money::from_units(20000).format(), b"2".to_vec());
    assert_eq!(Money::from_units(25000).format(), b"2.5".to_vec());
    assert_eq!(Money::from_units(1).format(), b"0.0001".to_vec());
    assert_eq!(Money::from_units(12345).format(), b"1.2345".to_vec());
    assert_eq!(Money::zero().format(), b"0".to_vec());
    assert_eq!(Money::from_units(105000).format(), b"10.5".to_vec());
    assert_eq!(Money::from_units(100200).format(), b"10.02".to_vec());
}

#[test]
fn format_then_parse_round_trips() {
    for units in [0u64, 1, 9, 10, 9999, 10000, 10001, 123450, 98765432101, u64::MAX] {
        let m = Money::from_units(units);
        assert_eq!(Money::parse(&m.format()), Some(m));
    }
}

#[test]
fn ordering_follows_units() {
    let small = Money::from_units(1);
    let big = Money::from_units(2);
    assert!(big.ge(&small));
    assert!(big.ge(&big));
    assert!(!small.ge(&big));
}
