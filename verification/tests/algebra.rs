use l3x_ide::numeral::RegisterParseError;
use l3x_ide::registers::Registers;

#[test]
fn multiply_identity() {
    let r = Registers::factorize(252);
    let one = Registers::one();
    let prod = r.multiply(&one);
    assert_eq!(prod, Registers(vec![(2, 2), (3, 2), (7, 1)]));
    let prod2 = one.multiply(&r);
    assert_eq!(prod2, prod);
}

#[test]
fn multiply_merges_factors() {
    let a = Registers::factorize(6);
    let b = Registers::factorize(35);
    assert_eq!(a.multiply(&b), Registers(vec![(2, 1), (3, 1), (5, 1), (7, 1)]));
    let c = Registers::factorize(12);
    let d = Registers::factorize(18);
    assert_eq!(c.multiply(&d), Registers(vec![(2, 3), (3, 3)]));
}

#[test]
fn division_inverse() {
    let a = Registers::factorize(360);
    let b = Registers::factorize(15);
    let q = a.try_divide(&b).expect("15 divides 360");
    assert_eq!(q.multiply(&b), a);
    assert_eq!(q, Registers(vec![(2, 3), (3, 1)]));
}

#[test]
fn division_drops_zero_exponents() {
    let a = Registers::factorize(12);
    let b = Registers::factorize(4);
    assert_eq!(a.try_divide(&b), Some(Registers(vec![(3, 1)])));
    let c = Registers::factorize(12);
    assert_eq!(c.try_divide(&Registers::factorize(12)), Some(Registers(vec![])));
}

#[test]
fn division_failure() {
    let a = Registers::factorize(12);
    let b = Registers::factorize(5);
    assert_eq!(a.try_divide(&b), None);
    let c = Registers::factorize(8);
    let d = Registers::factorize(16);
    assert_eq!(c.try_divide(&d), None);
}

#[test]
fn parse_factorizes() {
    assert_eq!(Registers::parse("12"), Ok(Registers(vec![(2, 2), (3, 1)])));
    assert_eq!(Registers::parse("1"), Ok(Registers(vec![])));
    assert_eq!(Registers::parse("97"), Ok(Registers(vec![(97, 1)])));
    assert_eq!(Registers::parse("1024"), Ok(Registers(vec![(2, 10)])));
}

#[test]
fn parse_rejects_zero() {
    assert_eq!(Registers::parse("0"), Err(RegisterParseError::Zero));
    assert_eq!(Registers::parse("000"), Err(RegisterParseError::Zero));
}

#[test]
fn parse_rejects_malformed() {
    assert_eq!(Registers::parse(""), Err(RegisterParseError::Malformed));
    assert_eq!(Registers::parse("12a"), Err(RegisterParseError::Malformed));
    assert_eq!(Registers::parse("-3"), Err(RegisterParseError::Malformed));
}

#[test]
fn parse_rejects_overflow() {
    assert_eq!(
        Registers::parse("99999999999999999999"),
        Err(RegisterParseError::NumberOverflow)
    );
}

#[test]
fn decimal_rendering() {
    assert_eq!(Registers::one().to_decimal_string(), "1");
    assert_eq!(Registers::factorize(252).to_decimal_string(), "252");
    assert_eq!(Registers::factorize(97).to_decimal_string(), "97");
    assert_eq!(Registers::factorize(1000000).to_decimal_string(), "1000000");
}

#[test]
fn decimal_rendering_beyond_native_width() {
    // 2^40 squared does not fit u64; the rendering is exact regardless
    let big = Registers::factorize(1099511627776);
    let sq = big.multiply(&big);
    assert_eq!(sq, Registers(vec![(2, 80)]));
    assert_eq!(sq.to_decimal_string(), "1208925819614629174706176");
}

#[test]
fn overflow_guard_on_multiply() {
    let a = Registers(vec![(2, u32::MAX)]);
    let b = Registers(vec![(2, 1)]);
    assert_eq!(a.try_multiply(&b), None);
    assert!(a.try_multiply(&Registers(vec![(3, 1)])).is_some());
}

#[test]
fn is_one_checks_emptiness() {
    assert!(Registers::one().is_one());
    assert!(!Registers::factorize(2).is_one());
}
