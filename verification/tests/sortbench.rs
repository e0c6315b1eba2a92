use sortbench::generate::{make_string_vec, make_string_vec_from};
use sortbench::numeric::{parse_numeric, to_decimal_string};
use sortbench::strategies::{
    check_sort_equivalence, clone_dataset, parse_then_sort, sort_by_cached_key, sort_by_key,
};

fn dataset(strs: &[&str]) -> Vec<String> {
    strs.iter().map(|s| s.to_string()).collect()
}

#[test]
fn make_vec() {
    assert_eq!(make_string_vec(10).len(), 10);
    assert!(make_string_vec(1)[0].parse::<i32>().is_ok());
}

#[test]
fn sort_equality() {
    let input = make_string_vec(100);

    let mut by_key = input.clone();
    let _ = sort_by_key(&mut by_key);

    let mut by_key_cached = input.clone();
    let _ = sort_by_cached_key(&mut by_key_cached);

    let first_elem = parse_then_sort(&input).unwrap();

    assert_eq!(by_key, by_key_cached);
    // This is not an exhaustive test, only here as sanity check.
    assert_eq!(by_key[0], first_elem.to_string());
}

#[test]
fn scenario_mixed_values() {
    let input = dataset(&["3", "-1", "2", "-1", "0"]);
    let mut by_key = input.clone();
    let probe = sort_by_key(&mut by_key);
    assert_eq!(by_key, dataset(&["-1", "-1", "0", "2", "3"]));
    assert_eq!(probe, Some(2));
    let mut cached = input.clone();
    let cached_probe = sort_by_cached_key(&mut cached);
    assert_eq!(cached, by_key);
    assert_eq!(cached_probe, Some(2));
    assert_eq!(parse_then_sort(&input), Some(-1));
    assert!(check_sort_equivalence(&input));
}

#[test]
fn scenario_empty() {
    let mut a: Vec<String> = Vec::new();
    assert_eq!(sort_by_key(&mut a), None);
    assert!(a.is_empty());
    let mut b: Vec<String> = Vec::new();
    assert_eq!(sort_by_cached_key(&mut b), None);
    assert!(b.is_empty());
    let c: Vec<String> = Vec::new();
    assert_eq!(parse_then_sort(&c), None);
    assert!(check_sort_equivalence(&c));
}

#[test]
fn scenario_single_element() {
    let input = dataset(&["42"]);
    let mut a = input.clone();
    assert_eq!(sort_by_key(&mut a), Some(2));
    assert_eq!(a, dataset(&["42"]));
    let mut b = input.clone();
    assert_eq!(sort_by_cached_key(&mut b), Some(2));
    assert_eq!(b, dataset(&["42"]));
    assert_eq!(parse_then_sort(&input), Some(42));
    assert!(check_sort_equivalence(&input));
}

#[test]
fn sorted_input_unchanged() {
    let sorted = dataset(&["-5", "-1", "0", "3", "7"]);
    let mut a = sorted.clone();
    let _ = sort_by_key(&mut a);
    assert_eq!(a, sorted);
    let mut b = sorted.clone();
    let _ = sort_by_cached_key(&mut b);
    assert_eq!(b, sorted);
}

#[test]
fn all_duplicate_keys() {
    let input = dataset(&["5", "5", "5", "5"]);
    let mut a = input.clone();
    let _ = sort_by_key(&mut a);
    assert_eq!(a, input);
    let mut b = input.clone();
    let _ = sort_by_cached_key(&mut b);
    assert_eq!(b, input);
    assert_eq!(parse_then_sort(&input), Some(5));
    assert!(check_sort_equivalence(&input));
}

#[test]
fn reverse_sorted_input() {
    let input = dataset(&["9", "4", "1", "-3"]);
    let mut a = input.clone();
    let _ = sort_by_key(&mut a);
    assert_eq!(a, dataset(&["-3", "1", "4", "9"]));
    let mut b = input.clone();
    let _ = sort_by_cached_key(&mut b);
    assert_eq!(b, a);
    assert_eq!(parse_then_sort(&input), Some(-3));
    assert!(check_sort_equivalence(&input));
}

#[test]
fn equivalence_on_random_input() {
    let input = make_string_vec(50);
    assert!(check_sort_equivalence(&input));
}

#[test]
fn clone_dataset_copies_elements() {
    let input = dataset(&["1", "-2", "3"]);
    let copy = clone_dataset(&input);
    assert_eq!(copy, input);
}

#[test]
fn parse_numeric_accepts() {
    assert_eq!(parse_numeric("0"), Some(0));
    assert_eq!(parse_numeric("123"), Some(123));
    assert_eq!(parse_numeric("-1"), Some(-1));
    assert_eq!(parse_numeric("2147483647"), Some(2147483647));
    assert_eq!(parse_numeric("-2147483648"), Some(-2147483648));
    assert_eq!(parse_numeric("007"), Some(7));
    assert_eq!(parse_numeric("-007"), Some(-7));
}

#[test]
fn parse_numeric_rejects() {
    assert_eq!(parse_numeric(""), None);
    assert_eq!(parse_numeric("-"), None);
    assert_eq!(parse_numeric("12a"), None);
    assert_eq!(parse_numeric("a12"), None);
    assert_eq!(parse_numeric("1 2"), None);
    assert_eq!(parse_numeric("1.5"), None);
    assert_eq!(parse_numeric("+5"), None);
    assert_eq!(parse_numeric("--5"), None);
    assert_eq!(parse_numeric("2147483648"), None);
    assert_eq!(parse_numeric("-2147483649"), None);
    assert_eq!(parse_numeric("99999999999999999999"), None);
}

#[test]
fn decimal_formatting() {
    assert_eq!(to_decimal_string(0), "0");
    assert_eq!(to_decimal_string(42), "42");
    assert_eq!(to_decimal_string(-7), "-7");
    assert_eq!(to_decimal_string(1000), "1000");
    assert_eq!(to_decimal_string(i32::MAX), "2147483647");
    assert_eq!(to_decimal_string(i32::MIN), "-2147483648");
}

#[test]
fn explicit_values_dataset() {
    let values = vec![3, -1, 2, -1, 0];
    let ds = make_string_vec_from(&values);
    assert_eq!(ds, dataset(&["3", "-1", "2", "-1", "0"]));
}

#[test]
fn generated_strings_round_trip() {
    let values = vec![i32::MIN, -1, 0, 1, i32::MAX];
    let ds = make_string_vec_from(&values);
    for (s, v) in ds.iter().zip(values.iter()) {
        assert_eq!(parse_numeric(s), Some(*v));
    }
}
