use customer_analyzer::wide::{Wide, BASE};

fn parts(w: &Wide) -> (i128, i64) {
    (w.high(), w.low())
}

#[test]
fn a_wide_number_is_its_two_parts() {
    assert_eq!(BASE, 1_000_000_000_000_000_000);
    assert_eq!(parts(&Wide::zero()), (0, 0));
    assert_eq!(parts(&Wide::from_i128(5)), (0, 5));
    assert_eq!(parts(&Wide::from_i128(BASE)), (1, 0));
    assert_eq!(parts(&Wide::from_i128(BASE - 1)), (0, 999_999_999_999_999_999));
    assert_eq!(parts(&Wide::from_i128(-1)), (-1, 999_999_999_999_999_999));
    assert_eq!(parts(&Wide::from_i128(-BASE)), (-1, 0));
    assert_eq!(parts(&Wide::from_i128(-BASE - 1)), (-2, 999_999_999_999_999_999));
    assert_eq!(parts(&Wide::from_i128(3 * BASE + 7)), (3, 7));
}

#[test]
fn a_wide_number_gives_back_what_it_was_made_of() {
    let samples = [
        0, 1, -1, 42, -42, BASE, -BASE, BASE + 1, BASE - 1, -BASE + 1, -BASE - 1,
        i128::MAX, i128::MIN, i128::MAX - 1, i128::MIN + 1, 123_456_789_012_345_678_901_234_567_890,
        -123_456_789_012_345_678_901_234_567_890,
    ];
    for m in samples {
        let w = Wide::from_i128(m);
        assert_eq!(w.clamped(), m);
        assert!(0 <= w.low() && i128::from(w.low()) < BASE);
        assert_eq!(w.high().wrapping_mul(BASE).wrapping_add(i128::from(w.low())), m);
    }
}

#[test]
fn wide_numbers_add_up() {
    let samples = [0_i128, 1, -1, 7, -7, BASE - 1, BASE, -BASE, 5 * BASE + 999, -5 * BASE - 999, 1_000_000_000_000_000_000_000_000_000_000_000_000];
    for a in samples {
        for b in samples {
            let sum = Wide::from_i128(a).plus(&Wide::from_i128(b));
            assert_eq!(sum.clamped(), a + b, "{} + {}", a, b);
        }
    }
}

#[test]
fn wide_numbers_hold_more_than_an_integer() {
    let most = Wide::from_i128(i128::MAX);
    let more = most.plus(&Wide::from_i128(1));
    assert_eq!(more.clamped(), i128::MAX);
    assert!(most.less(&more));
    assert_eq!(more.plus(&Wide::from_i128(-1)).clamped(), i128::MAX);
    assert_eq!(more.plus(&Wide::from_i128(-2)).clamped(), i128::MAX - 1);
    let least = Wide::from_i128(i128::MIN);
    let less = least.plus(&Wide::from_i128(-1));
    assert_eq!(less.clamped(), i128::MIN);
    assert!(less.less(&least));
    assert_eq!(less.plus(&Wide::from_i128(2)).clamped(), i128::MIN + 1);
    assert_eq!(more.plus(&less).clamped(), -1);
}

#[test]
fn wide_numbers_are_ordered() {
    let samples = [i128::MIN, -BASE - 1, -BASE, -1, 0, 1, BASE - 1, BASE, BASE + 1, i128::MAX];
    for a in samples {
        for b in samples {
            assert_eq!(Wide::from_i128(a).less(&Wide::from_i128(b)), a < b, "{} < {}", a, b);
        }
    }
}
