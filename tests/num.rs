use derivative_calculator::num::Num;

fn text(n: &Num) -> String {
    let mut s = String::new();
    n.push_text(&mut s);
    s
}

#[test]
fn decimal_numerals() {
    assert_eq!(Num::parse_decimal("12"), Num::new(12, 1));
    assert_eq!(Num::parse_decimal("1.50"), Num::new(3, 2));
    assert_eq!(Num::parse_decimal(".5"), Num::new(1, 2));
    assert_eq!(Num::parse_decimal("."), None);
    assert_eq!(Num::parse_decimal("1.2.3"), None);
    assert_eq!(Num::parse_decimal("99999999999999999999"), None);
}

#[test]
fn arithmetic_in_lowest_terms() {
    let half = Num::new(1, 2).unwrap();
    let third = Num::new(1, 3).unwrap();
    assert_eq!(half.add(&third), Num::new(5, 6));
    assert_eq!(half.mul(&third), Num::new(1, 6));
    assert_eq!(half.div(&third), Num::new(3, 2));
    assert_eq!(half.div(&Num::from_i32(0)), None);
    assert_eq!(Num::new(4, 8), Num::new(1, 2));
    assert_eq!(Num::from_i32(-2).pow(&Num::from_i32(3)), Num::new(-8, 1));
    assert_eq!(Num::from_i32(2).pow(&Num::from_i32(-2)), Num::new(1, 4));
    assert_eq!(Num::from_i32(0).pow(&Num::from_i32(-1)), None);
    assert_eq!(Num::from_i32(4).pow(&half), None);
    assert_eq!(Num::from_i32(-1).pow(&Num::new(1_000_000_001, 1).unwrap()), Num::new(-1, 1));
    assert_eq!(Num::from_i32(i32::MAX).mul(&Num::from_i32(i32::MAX)), Num::new(4611686014132420609, 1));
    let big = Num::new(i64::MAX, 1).unwrap();
    assert_eq!(big.add(&Num::from_i32(1)), None);
}

#[test]
fn number_text() {
    assert_eq!(text(&Num::from_i32(2)), "2");
    assert_eq!(text(&Num::new(1, 2).unwrap()), "0.5");
    assert_eq!(text(&Num::new(-5, 4).unwrap()), "(-1.25)");
    assert_eq!(text(&Num::new(1, 3).unwrap()), "(1 / 3)");
    assert_eq!(text(&Num::new(-2, 3).unwrap()), "((-2) / 3)");
    assert_eq!(text(&Num::new(1, 1 << 20).unwrap()), "0.00000095367431640625");
}
