use shokushu::big::Big;

fn digits(n: &Big) -> String {
    let mut out = String::new();
    n.put_decimal(&mut out);
    out
}

fn fixed(n: &Big, unit: u128, places: u8) -> String {
    let mut out = String::new();
    n.put_fixed(&mut out, unit, places);
    out
}

#[test]
fn numbers_of_any_size_add_and_multiply() {
    let big = Big::power_of_two(200);
    assert_eq!(
        digits(&big),
        "1606938044258990275541962092341162602522202993782792835301376"
    );
    assert_eq!(digits(&big.minus(&Big::of(1)).plus(&Big::of(1))), digits(&big));
    assert_eq!(digits(&Big::power_of_two(100).times(&Big::power_of_two(100))), digits(&big));
    assert_eq!(big.minus(&big).word(), Some(0));
    assert_eq!(Big::of(-7).times(&Big::of(6)).word(), Some(-42));
    assert_eq!(digits(&Big::of_size(u128::MAX).plus(&Big::of(1))), digits(&Big::power_of_two(128)));
}

#[test]
fn division_rounds_down_on_either_side_of_zero() {
    for (n, d, q) in [(7, 2, 3), (-7, 2, -4), (-8, 2, -4), (0, 5, 0), (-1, 3, -1)] {
        assert_eq!(Big::of(n).over(&Big::of(d)).word(), Some(q), "{n} / {d}");
    }
    let big = Big::power_of_two(300);
    assert_eq!(digits(&big.over(&Big::power_of_two(140))), digits(&Big::power_of_two(160)));
    let short = big.minus(&Big::of(1)).over(&Big::power_of_two(140));
    assert_eq!(digits(&short.plus(&Big::of(1))), digits(&Big::power_of_two(160)));
    let below = big.minus(&Big::of(1)).negated().over(&Big::power_of_two(140));
    assert_eq!(digits(&below.negated()), digits(&Big::power_of_two(160)));
}

#[test]
fn a_word_holds_what_fits_it() {
    for n in [0, 1, -1, i128::MAX, i128::MIN, 0xffff_ffff, -0x1_0000_0000] {
        assert_eq!(Big::of(n).word(), Some(n));
        assert_eq!(Big::of(n).copy().word(), Some(n));
        assert_eq!(Big::of(n).is_negative(), n < 0);
    }
    assert_eq!(Big::of(i128::MAX).plus(&Big::of(1)).word(), None);
    assert_eq!(Big::of(i128::MIN).minus(&Big::of(1)).word(), None);
    assert!(Big::of(3).at_most(&Big::of(3)) && !Big::of(3).at_most(&Big::of(-4)));
}

#[test]
fn a_root_is_rounded_down() {
    for (n, root) in [(0, 0), (1, 1), (3, 1), (4, 2), (99, 9), (100, 10), (1 << 100, 1 << 50)] {
        assert_eq!(Big::of(n).square_root().word(), Some(root));
    }
    let big = Big::power_of_two(180);
    assert_eq!(digits(&big.times(&big).square_root()), digits(&big));
    let less = big.times(&big).minus(&Big::of(1)).square_root();
    assert_eq!(digits(&less.plus(&Big::of(1))), digits(&big));
}

#[test]
fn digits_behind_the_point_are_rounded_to_even() {
    for (n, unit) in [(1_500_000, 1_000_000), (-2_250_500, 1_000_000), (125, 1_000), (0, 7)] {
        let plain = format!("{:.2}", n as f64 / unit as f64);
        assert_eq!(fixed(&Big::of(n), unit, 2), plain);
    }
    assert_eq!(fixed(&Big::of(-2_060_000_000), 1_000_000_000, 1), "-2.1");
    assert_eq!(
        fixed(&Big::power_of_two(200), 1_000, 2),
        "1606938044258990275541962092341162602522202993782792835301.38"
    );
    let mut out = String::new();
    Big::of(5).put_fixed_with_sign(&mut out, 2, 0);
    Big::of(5).put_fixed_column(&mut out, 10, 1, 6);
    assert_eq!(out, "+2   0.5");
}
