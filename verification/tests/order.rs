use resource_monitor::names::FoldedName;
use resource_monitor::order::{stable_order, SortKey};
use resource_monitor::rounding::{round_ratio, round_to_limit, times_power_of_two};

fn key(lower: &str) -> FoldedName {
    FoldedName::from_lowercase(lower)
}

#[test]
fn names_in_dictionary_order() {
    assert!(key("a").is_before(&key("b")));
    assert!(key("").is_before(&key("a")));
    assert!(key("ab").is_before(&key("abc")));
    assert!(key("abc").is_before(&key("abd")));
    assert!(key("z").is_before(&key("é")));
    assert!(!key("a").is_before(&key("a")));
    assert!(!key("abc").is_before(&key("ab")));
    assert!(!key("").is_before(&key("")));
}

#[test]
fn name_order_is_that_of_strings() {
    let names = ["", "a", "aa", "b", "zz", "é", "ß", "…", "\u{ffff}", "\u{10000}", "a\u{10ffff}"];
    for a in names {
        for b in names {
            assert_eq!(key(a).is_before(&key(b)), a < b);
        }
    }
}

#[test]
fn names_that_differ_in_case_only_are_tied() {
    let upper = FoldedName::new("Rust-Analyzer");
    let lower = FoldedName::new("rust-analyzer");
    assert!(!upper.is_before(&lower));
    assert!(!lower.is_before(&upper));
    assert!(FoldedName::new("B").is_before(&FoldedName::new("c")));
    assert!(FoldedName::new("b").is_before(&FoldedName::new("C")));
}

#[test]
fn stable_order_of_keys() {
    let keys = vec![key("b"), key("a"), key("b"), key("a"), key("c")];
    assert_eq!(stable_order(&keys), vec![1, 3, 0, 2, 4]);
    assert_eq!(stable_order(&Vec::<FoldedName>::new()), Vec::<usize>::new());
}

#[test]
fn ratios_round_half_to_even() {
    assert_eq!(round_ratio(5, 2), 2);
    assert_eq!(round_ratio(7, 2), 4);
    assert_eq!(round_ratio(8, 3), 3);
    assert_eq!(round_ratio(7, 3), 2);
    assert_eq!(round_ratio(0, 9), 0);
}

#[test]
fn rounding_to_a_number_of_bits() {
    let short = round_to_limit(15, 16);
    assert_eq!((short.count, short.doublings), (15, 0));
    let tie = round_to_limit(0b10101, 16);
    assert_eq!((tie.count, tie.doublings), (0b1010, 1));
    let carry = round_to_limit(0b11111, 16);
    assert_eq!((carry.count, carry.doublings), (16, 1));
    assert_eq!(times_power_of_two(3, 5), 96);
    assert_eq!(times_power_of_two(7, 0), 7);
}
