use oics::calculate::{get_arithmetic_mean, get_standard_deviation, Fraction};

#[test]
fn mean_is_exact_fraction() {
    let m = get_arithmetic_mean(&vec![1, 2, 3, 4]);
    assert_eq!(m, Fraction { num: 10, den: 4 });
}

#[test]
fn deviation_of_constant_profile_is_zero() {
    let sd = get_standard_deviation(&vec![7, 7, 7, 7, 7]);
    assert_eq!(sd.num, 0);
    assert_eq!(sd.den, 25);
}

#[test]
fn deviation_of_two_values() {
    // population variance of [1, 3] is 1
    let sd = get_standard_deviation(&vec![1, 3]);
    assert_eq!(sd, Fraction { num: 4, den: 4 });
}

#[test]
fn deviation_of_single_value_is_zero() {
    let sd = get_standard_deviation(&vec![42]);
    assert_eq!(sd.num, 0);
    assert_eq!(sd.den, 1);
}

#[test]
fn deviation_positive_when_values_differ() {
    // [0, 0, 6]: mean 2, variance (4 + 4 + 16) / 3 = 8
    let sd = get_standard_deviation(&vec![0, 0, 6]);
    assert_eq!(sd.num, 72);
    assert_eq!(sd.den, 9);
    assert!(get_standard_deviation(&vec![5, 5, 5]).less_than(&sd));
}

#[test]
fn fraction_comparisons_go_by_value() {
    let a = Fraction { num: 1, den: 2 };
    let b = Fraction { num: 2, den: 4 };
    let c = Fraction { num: 2, den: 3 };
    assert!(a.same_value(&b));
    assert!(!a.less_than(&b));
    assert!(a.less_than(&c));
    assert!(!c.less_than(&a));
    assert!(!a.same_value(&c));
}
