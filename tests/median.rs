use stats::{median_bits, median_position, order_key, order_keys};

fn median(nums: &[f64]) -> Option<f64> {
    let bits: Vec<u64> = nums.iter().map(|x| x.to_bits()).collect();
    median_bits(&bits).map(f64::from_bits)
}

#[test]
fn test_median_95() {
    assert_eq!(Some(95.5), median(&[75.5, 100.5, 95.5, 265.5, -37.0]));
}

#[test]
fn test_median_single() {
    assert_eq!(Some(25.0), median(&[25.0]));
}

#[test]
fn test_median_two() {
    assert_eq!(Some(-1.0), median(&[-1.0, 3.0]));
}

#[test]
fn median_of_empty_is_undefined() {
    assert_eq!(None, median(&[]));
    assert_eq!(None, median_position(&Vec::new()));
}

#[test]
fn median_of_even_count_takes_lower_middle() {
    assert_eq!(Some(0.0), median(&[0.0, 0.5, -1.0, 1.0]));
}

#[test]
fn median_of_sorted_odd_sample_is_middle() {
    assert_eq!(Some(3.0), median(&[1.0, 2.0, 3.0, 4.0, 5.0]));
}

#[test]
fn median_with_negatives_and_infinities() {
    let s = [f64::INFINITY, -2.5, f64::NEG_INFINITY, -10.0, 7.0];
    assert_eq!(Some(-2.5), median(&s));
}

#[test]
fn median_sorts_equal_zeros_stably() {
    let r = median(&[1.0, -0.0, 0.0]).unwrap();
    assert_eq!(r, 0.0);
    assert!(r.is_sign_positive());
    let r = median(&[1.0, 0.0, -0.0]).unwrap();
    assert!(r.is_sign_negative());
}

#[test]
fn median_position_on_keys() {
    assert_eq!(Some(2), median_position(&vec![30, 10, 20, 40]));
    assert_eq!(Some(1), median_position(&vec![5, 5, 5]));
    assert_eq!(Some(2), median_position(&vec![9, 1, 5, 7, 2]));
}

#[test]
fn median_is_the_same_on_repeated_calls() {
    let s = [3.5, -1.0, 2.0, 2.0, 8.25, 0.5];
    assert_eq!(median(&s), median(&s));
    assert_eq!(Some(2.0), median(&s));
}

#[test]
fn keys_order_as_doubles() {
    let xs = [f64::NEG_INFINITY, -3.0, -1e-300, 0.0, 1e-300, 2.0, f64::INFINITY];
    for w in xs.windows(2) {
        assert!(order_key(w[0].to_bits()) < order_key(w[1].to_bits()));
    }
    assert_eq!(order_key((-0.0f64).to_bits()), order_key(0.0f64.to_bits()));
    assert_eq!(order_key(0), 0x8000_0000_0000_0000);
}

#[test]
fn keys_of_sample_in_order() {
    let bits = vec![1.0f64.to_bits(), (-1.0f64).to_bits()];
    let keys = order_keys(&bits);
    assert_eq!(keys, vec![order_key(bits[0]), order_key(bits[1])]);
    assert!(keys[1] < keys[0]);
}
