use czkawka::ieee::{Binary32, Binary64};
use czkawka::sorted_map::SortedMap;
use czkawka::text::{compare_text, push_decimal, TextOrder};

#[test]
fn decimals() {
    let mut text = String::from("n=");
    push_decimal(&mut text, 0);
    text.push(' ');
    push_decimal(&mut text, 18_446_744_073_709_551_615);
    assert_eq!(text, "n=0 18446744073709551615");
}

#[test]
fn texts_are_ordered_like_their_characters() {
    let texts = ["", "a", "ab", "b", "z", "ß", "ś", "日", "😀"];
    for (i, a) in texts.iter().enumerate() {
        for (j, b) in texts.iter().enumerate() {
            match compare_text(a, b) {
                TextOrder::Before => assert!(i < j && a < b),
                TextOrder::Same => assert!(i == j && a == b),
                TextOrder::After => assert!(i > j && a > b),
            }
        }
    }
}

#[test]
fn a_map_keeps_its_keys_in_order() {
    let mut map: SortedMap<u32> = SortedMap::new();
    assert!(map.is_empty());
    for (i, key) in ["m", "c", "x", "c", "a"].iter().enumerate() {
        map.insert(key.to_string(), i as u32);
    }
    assert_eq!(map.len(), 4);
    assert!(map.contains_key("x"));
    assert!(!map.contains_key("b"));
    assert_eq!(map.get("c"), Some(&3));
    assert_eq!(map.get("b"), None);
    let pairs = map.into_pairs();
    let expected = vec![
        ("a".to_string(), 4),
        ("c".to_string(), 3),
        ("m".to_string(), 0),
        ("x".to_string(), 2),
    ];
    assert_eq!(pairs, expected);
}

#[test]
fn a_map_of_lists_collects() {
    let mut map: SortedMap<Vec<u32>> = SortedMap::new();
    map.push_under("b".to_string(), 1);
    map.push_under("a".to_string(), 2);
    map.push_under("b".to_string(), 3);
    assert_eq!(map.into_pairs(), vec![("a".to_string(), vec![2]), ("b".to_string(), vec![1, 3])]);
}

#[test]
fn single_precision_numbers_are_ordered_as_numbers() {
    let numbers = [
        f32::NEG_INFINITY,
        -2.5,
        -1.0e-40,
        -0.0,
        0.0,
        1.0e-40,
        0.12381,
        10.0,
        f32::INFINITY,
        f32::NAN,
        -f32::NAN,
    ];
    for a in numbers {
        for b in numbers {
            let x = Binary32 { bits: a.to_bits() };
            let y = Binary32 { bits: b.to_bits() };
            assert_eq!(x.is_less_than(y), a < b);
        }
    }
}

#[test]
fn double_precision_numbers_are_ordered_as_numbers() {
    let numbers = [
        f64::NEG_INFINITY,
        -2.5,
        -1.0e-310,
        -0.0,
        0.0,
        1.0e-310,
        0.7,
        2.0,
        f64::INFINITY,
        f64::NAN,
        -f64::NAN,
    ];
    for a in numbers {
        for b in numbers {
            let x = Binary64 { bits: a.to_bits() };
            let y = Binary64 { bits: b.to_bits() };
            assert_eq!(x.is_less_than(y), a < b);
        }
    }
}
