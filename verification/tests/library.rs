use example_lib::answer;
use example_lib::codec::decode_point;
use example_lib::codec::encode_point;
use example_lib::codec::Point;
use example_lib::digits::i32_to_decimal;
use example_lib::digits::u64_to_decimal;
use example_lib::interleave::interleave;
use example_lib::interleave::interleave_demo;
use example_lib::sub::foo;

#[test]
fn answer_is_forty_two() {
    assert_eq!(answer(), 42);
}

#[test]
fn answer_is_stable_across_calls() {
    let first = answer();
    let second = answer();
    assert_eq!(first, 42);
    assert_eq!(second, 42);
    assert_eq!(first, second);
}

#[test]
fn encode_literal_point() {
    assert_eq!(encode_point(&Point { x: 1, y: 2 }), "{\"x\":1,\"y\":2}");
}

#[test]
fn encode_negative_point() {
    assert_eq!(
        encode_point(&Point { x: -5, y: -2147483648 }),
        "{\"x\":-5,\"y\":-2147483648}"
    );
}

#[test]
fn decode_literal_point() {
    assert_eq!(decode_point("{\"x\":1,\"y\":2}"), Some(Point { x: 1, y: 2 }));
}

#[test]
fn round_trip_literal_pair() {
    let p = Point { x: 1, y: 2 };
    assert_eq!(decode_point(&encode_point(&p)), Some(p));
}

#[test]
fn round_trip_zero_pair() {
    let p = Point { x: 0, y: 0 };
    assert_eq!(decode_point(&encode_point(&p)), Some(p));
}

#[test]
fn round_trip_mixed_signs() {
    let p = Point { x: -5, y: 7 };
    assert_eq!(decode_point(&encode_point(&p)), Some(p));
}

#[test]
fn round_trip_extreme_pair() {
    let p = Point {
        x: i32::MIN,
        y: i32::MAX,
    };
    assert_eq!(decode_point(&encode_point(&p)), Some(p));
}

#[test]
fn round_trip_larger_pair() {
    let p = Point {
        x: 123456,
        y: -98765,
    };
    assert_eq!(decode_point(&encode_point(&p)), Some(p));
}

#[test]
fn decode_rejects_empty() {
    assert_eq!(decode_point(""), None);
}

#[test]
fn decode_rejects_truncated() {
    assert_eq!(decode_point("{\"x\":1,\"y\":2"), None);
}

#[test]
fn decode_rejects_trailing_text() {
    assert_eq!(decode_point("{\"x\":1,\"y\":2} "), None);
}

#[test]
fn decode_rejects_leading_zero() {
    assert_eq!(decode_point("{\"x\":01,\"y\":2}"), None);
}

#[test]
fn decode_rejects_negative_zero() {
    assert_eq!(decode_point("{\"x\":-0,\"y\":2}"), None);
}

#[test]
fn decode_rejects_inner_space() {
    assert_eq!(decode_point("{\"x\": 1,\"y\":2}"), None);
}

#[test]
fn decode_rejects_swapped_fields() {
    assert_eq!(decode_point("{\"y\":1,\"x\":2}"), None);
}

#[test]
fn decode_rejects_value_out_of_range() {
    assert_eq!(decode_point("{\"x\":2147483648,\"y\":0}"), None);
}

#[test]
fn decode_accepts_extreme_values() {
    assert_eq!(
        decode_point("{\"x\":-2147483648,\"y\":2147483647}"),
        Some(Point {
            x: i32::MIN,
            y: i32::MAX,
        })
    );
}

#[test]
fn interleave_demo_exact_order() {
    assert_eq!(interleave_demo(), vec![1, 1, 2, 2, 3, 3, 4, 5, 6, 7, 8, 9]);
}

#[test]
fn interleave_equal_lengths_alternates() {
    let a = vec![10, 20, 30];
    let b = vec![1, 2, 3];
    let r = interleave(&a, &b);
    assert_eq!(r.len(), 2 * a.len());
    assert_eq!(r, vec![10, 1, 20, 2, 30, 3]);
}

#[test]
fn interleave_empty_left_is_identity() {
    let a: Vec<i32> = vec![];
    let b = vec![1, 2, 3];
    assert_eq!(interleave(&a, &b), vec![1, 2, 3]);
}

#[test]
fn interleave_empty_right_is_identity() {
    let a = vec![4, 5];
    let b: Vec<i32> = vec![];
    assert_eq!(interleave(&a, &b), vec![4, 5]);
}

#[test]
fn interleave_longer_right_appends_rest() {
    let a = vec![1];
    let b = vec![7, 8, 9];
    assert_eq!(interleave(&a, &b), vec![1, 7, 8, 9]);
}

#[test]
fn format_u64_value_128() {
    assert_eq!(u64_to_decimal(128), "128");
}

#[test]
fn format_u64_zero() {
    assert_eq!(u64_to_decimal(0), "0");
}

#[test]
fn format_u64_maximum() {
    assert_eq!(u64_to_decimal(u64::MAX), "18446744073709551615");
}

#[test]
fn format_i32_negative() {
    assert_eq!(i32_to_decimal(-45), "-45");
}

#[test]
fn format_i32_minimum() {
    assert_eq!(i32_to_decimal(i32::MIN), "-2147483648");
}

#[test]
fn format_i32_zero_and_positive() {
    assert_eq!(i32_to_decimal(0), "0");
    assert_eq!(i32_to_decimal(2147483647), "2147483647");
}

#[test]
fn sub_feature_self_check_passes() {
    assert!(foo());
}
