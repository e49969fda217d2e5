use vdb::bytes::Order;
use vdb::count::times;
use vdb::float::{compare64, is_finite32, is_finite64, is_less32, nearest_to, rank_of32};

const SAMPLES: [f32; 12] = [
    f32::NEG_INFINITY,
    f32::MIN,
    -1.5,
    -f32::MIN_POSITIVE,
    -0.0,
    0.0,
    f32::MIN_POSITIVE,
    0.999_999_94,
    1.000_000_1,
    f32::MAX,
    f32::INFINITY,
    f32::NAN,
];

#[test]
fn ranks_order_floats_as_their_total_order_does() {
    for a in SAMPLES {
        for b in SAMPLES {
            assert_eq!(
                rank_of32(a.to_bits()).cmp(&rank_of32(b.to_bits())),
                a.total_cmp(&b),
                "{a} {b}"
            );
        }
    }
}

#[test]
fn less_is_the_comparison_of_numbers() {
    for a in SAMPLES {
        for b in SAMPLES {
            assert_eq!(is_less32(a.to_bits(), b.to_bits()), a < b, "{a} {b}");
        }
    }
}

#[test]
fn finiteness_is_recognised_in_the_bits() {
    for a in SAMPLES {
        assert_eq!(is_finite32(a.to_bits()), a.is_finite(), "{a}");
        assert_eq!(is_finite64((a as f64).to_bits()), a.is_finite(), "{a}");
    }
}

#[test]
fn doubles_compare_as_numbers_and_nan_with_nothing() {
    for a in SAMPLES {
        for b in SAMPLES {
            let (x, y) = (a as f64, b as f64);
            let expected = if x < y {
                Some(Order::Less)
            } else if x > y {
                Some(Order::Greater)
            } else if x == y {
                Some(Order::Equal)
            } else {
                None
            };
            assert_eq!(compare64(x.to_bits(), y.to_bits()), expected, "{a} {b}");
        }
    }
}

#[test]
fn an_integer_becomes_the_nearest_double() {
    for x in [
        0i64,
        1,
        -1,
        3,
        1 << 53,
        (1 << 53) + 1,
        (1 << 53) + 3,
        -((1 << 53) + 1),
        i64::MAX,
        i64::MIN,
        1_234_567_890_123_456_789,
    ] {
        assert_eq!(nearest_to(x), (x as f64).to_bits(), "{x}");
    }
}

#[test]
fn a_product_stops_at_the_largest_count() {
    assert_eq!(times(6, 7), 42);
    assert_eq!(times(usize::MAX, 2), usize::MAX);
    assert_eq!(times(0, usize::MAX), 0);
}
