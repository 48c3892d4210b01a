use orb_vol::num::{quantile_of_sorted, round_div, sorted, sorted_distinct, Ratio};
use orb_vol::order::comes_before;
use orb_vol::text::{append_hundredths, append_thousandths, append_whole, same_text, split, trim};

#[test]
fn division_rounds_to_the_nearest() {
    assert_eq!(round_div(7, 2), 4);
    assert_eq!(round_div(-7, 2), -3);
    assert_eq!(round_div(-8, 3), -3);
    assert_eq!(round_div(10, 4), 3);
    assert_eq!(round_div(0, 9), 0);
}

#[test]
fn order_statistics_are_taken_of_sorted_values() {
    let v = sorted(&vec![5, -1, 3, 3, 9]);
    assert_eq!(v, vec![-1, 3, 3, 5, 9]);
    assert_eq!(quantile_of_sorted(&v, 50, 100), 3);
    assert_eq!(quantile_of_sorted(&v, 95, 100), 9);
    assert_eq!(sorted_distinct(&vec![4, 1, 4, 2, 1]), vec![1, 2, 4]);
}

#[test]
fn fractions_compare_exactly() {
    let third = Ratio::new(1, 3);
    assert!(third.is_above(333_333, 1_000_000));
    assert!(!third.is_above(333_334, 1_000_000));
    assert!(!third.is_above(2, 6));
}

#[test]
fn numbers_are_written_with_their_places() {
    let mut s = String::new();
    append_whole(&mut s, -42);
    s.push(' ');
    append_hundredths(&mut s, 5);
    s.push(' ');
    append_hundredths(&mut s, -150);
    s.push(' ');
    append_thousandths(&mut s, 1_480);
    assert_eq!(s, "-42 0.05 -1.50 1.480");
}

#[test]
fn texts_are_trimmed_split_and_ordered() {
    assert_eq!(trim(" \t a b \n"), "a b");
    assert_eq!(split("a,,b", ','), vec!["a", "", "b"]);
    assert_eq!(split("", ','), vec![""]);
    assert!(same_text("é", "é") && !same_text("a", "ab"));
    assert!(comes_before("a", "ab") && comes_before("B", "a") && !comes_before("b", "a"));
}
