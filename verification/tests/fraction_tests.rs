use gradia::fraction::Fraction;

fn show(f: Fraction) -> String {
    f.display()
}

#[test]
fn display_whole_and_ratio() {
    let half = Fraction::from_ints(1, 2).unwrap();
    assert_eq!(show(half), "1/2");
    let three = Fraction::from_ints(3, 1).unwrap();
    assert_eq!(show(three), "3");
}

#[test]
fn construction_reduces_to_lowest_terms() {
    let f = Fraction::from_ints(-3, 6).unwrap();
    assert_eq!(show(f), "-1/2");
    let g = Fraction::from_ints(4, -8).unwrap();
    assert_eq!(show(g), "-1/2");
    let z = Fraction::from_ints(0, 7).unwrap();
    assert_eq!(show(z), "0");
}

#[test]
fn from_text_parses_and_reduces() {
    assert_eq!(show(Fraction::from(String::from("3/6")).unwrap()), "1/2");
    assert_eq!(show(Fraction::from(String::from(" 8 / 12 ")).unwrap()), "2/3");
    assert_eq!(show(Fraction::from(String::from("-10/4")).unwrap()), "-5/2");
    assert!(Fraction::from(String::from("1/0")).is_none());
    assert!(Fraction::from(String::from("x/2")).is_none());
    assert!(Fraction::from(String::from("12")).is_none());
}

#[test]
fn decimal_text_is_exact() {
    let cs: Vec<char> = "3.14".chars().collect();
    let f = Fraction::from_decimal_text(&cs).unwrap();
    assert_eq!(show(f), "157/50");
    let cs2: Vec<char> = "-0.5".chars().collect();
    assert_eq!(show(Fraction::from_decimal_text(&cs2).unwrap()), "-1/2");
    let cs3: Vec<char> = "42".chars().collect();
    assert_eq!(show(Fraction::from_decimal_text(&cs3).unwrap()), "42");
    let bad: Vec<char> = "1.2.3".chars().collect();
    assert!(Fraction::from_decimal_text(&bad).is_none());
}

#[test]
fn arithmetic_is_exact() {
    let a = Fraction::from_ints(1, 2).unwrap();
    let b = Fraction::from_ints(1, 3).unwrap();
    assert_eq!(show(a.add(b)), "5/6");
    assert_eq!(show(a.sub(b)), "1/6");
    assert_eq!(show(a.mul(b)), "1/6");
    assert_eq!(show(a.div(b)), "3/2");
}

#[test]
fn division_by_zero_yields_the_sentinel() {
    let a = Fraction::from_ints(5, 3).unwrap();
    let z = Fraction::zero();
    assert_eq!(show(a.div(z)), "0");
}

#[test]
fn identity_elements_leave_values_unchanged() {
    let x = Fraction::from_ints(-7, 12).unwrap();
    let zero = Fraction::zero();
    let one = Fraction::one();
    assert_eq!(x.add(zero), x);
    assert_eq!(x.sub(zero), x);
    assert_eq!(x.mul(one), x);
    assert_eq!(x.div(one), x);
}

#[test]
fn ordering_is_exact() {
    let a = Fraction::from_ints(1, 3).unwrap();
    let b = Fraction::from_ints(1, 2).unwrap();
    assert!(a.lt(b));
    assert!(!b.lt(a));
    assert!(!a.lt(a));
}

#[test]
fn remainder_truncates_toward_zero() {
    let a = Fraction::from_ints(7, 2).unwrap();
    let b = Fraction::from_ints(2, 1).unwrap();
    assert_eq!(show(a.rem(b)), "3/2");
    let c = Fraction::from_ints(-7, 2).unwrap();
    assert_eq!(show(c.rem(b)), "-3/2");
}

#[test]
fn powers_of_whole_exponents() {
    let two = Fraction::from_ints(2, 1).unwrap();
    assert_eq!(show(two.pow_int(10)), "1024");
    assert_eq!(show(two.pow_int(0)), "1");
    assert_eq!(show(two.pow_int(-1)), "1/2");
    let half = Fraction::from_ints(1, 2).unwrap();
    assert_eq!(show(half.pow_int(2)), "1/4");
}

#[test]
fn simplify_keeps_the_value() {
    let mut f = Fraction::from_ints(6, 4).unwrap();
    f.simplify();
    assert_eq!(show(f), "3/2");
}
