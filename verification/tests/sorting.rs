use model_dist::sorting::{rank, sort_distinct};
use model_dist::text::{push_decimal, push_padded6, str_eq};

#[test]
fn ranking_is_stable() {
    assert_eq!(rank(&vec![5, 1, 5, 0, 1]), vec![3, 1, 4, 0, 2]);
    assert!(rank(&vec![]).is_empty());
    let keys: Vec<u128> = (0..1000u128).map(|i| (i * 7919) % 101).collect();
    let order = rank(&keys);
    let mut want: Vec<usize> = (0..1000).collect();
    want.sort_by_key(|&i| keys[i]);
    assert_eq!(order, want);
}

#[test]
fn distinct_numbers_are_sorted() {
    assert_eq!(sort_distinct(&vec![9, 2, 4_000_000_000, 0]), vec![0, 2, 9, 4_000_000_000]);
}

#[test]
fn decimal_texts() {
    for n in [0u64, 9, 10, 99, 100, 12345, u64::MAX] {
        let mut out = String::from("n=");
        push_decimal(&mut out, n);
        assert_eq!(out, format!("n={n}"));
    }
    for n in [0u32, 7, 42, 999_999, 1_000_000, u32::MAX] {
        let mut out = String::new();
        push_padded6(&mut out, n);
        assert_eq!(out, format!("{n:06}"));
    }
}

#[test]
fn strings_are_compared() {
    assert!(str_eq("", ""));
    assert!(str_eq("naïve", "naïve"));
    assert!(!str_eq("a", "b"));
    assert!(!str_eq("a", "ab"));
}
