use evofunc::binary32::{is_below, is_finite, is_score_below, is_zero, keep_finite, raise_to_min_positive, total_le};
use evofunc::instructions::Operation;
use evofunc::scores::{best_score, choose_position, later_score};

fn softmax(v: &[f32]) -> Vec<f32> {
    let max_score = v
        .iter()
        .max_by(|a, b| a.total_cmp(b))
        .copied()
        .unwrap_or_default();
    let numerator = v.iter().map(|n| (n - max_score).exp()).sum::<f32>();
    v.iter()
        .map(|v| (*v - max_score).exp() - numerator)
        .collect()
}

#[test]
fn test_softmax() {
    let close = |a: f32, b: f32| (a - b) < 0.01;
    let input: [f32; 4] = [-2.0, 1.0, 0.1, 0.0];
    let expected: [f32; 4] = [0.02729201, 0.5481746, 0.22287118, 0.20166218];
    assert!(softmax(&input)
        .iter()
        .zip(expected)
        .all(|(c, e)| close(*c, e)));
}

fn float_unit(op: Operation) -> u32 {
    let b = f32::from_bits;
    match op {
        Operation::Add(x, y) => (b(x) + b(y)).to_bits(),
        Operation::Sub(x, y) => (b(x) - b(y)).to_bits(),
        Operation::Mul(x, y) => (b(x) * b(y)).to_bits(),
        Operation::Div(x, y) => (b(x) / b(y)).to_bits(),
        Operation::Exp(x) => b(x).exp().to_bits(),
        Operation::Ln(x) => b(x).ln().to_bits(),
    }
}

fn bits(values: &[Option<f32>]) -> Vec<Option<u32>> {
    values.iter().map(|v| v.map(f32::to_bits)).collect()
}

#[test]
fn classification_follows_the_bit_patterns() {
    assert!(is_finite(1.5f32.to_bits()));
    assert!(is_finite((-0.0f32).to_bits()));
    assert!(is_finite(f32::MAX.to_bits()));
    assert!(!is_finite(f32::INFINITY.to_bits()));
    assert!(!is_finite(f32::NEG_INFINITY.to_bits()));
    assert!(!is_finite(f32::NAN.to_bits()));
    assert!(is_zero(0.0f32.to_bits()));
    assert!(is_zero((-0.0f32).to_bits()));
    assert!(!is_zero(f32::MIN_POSITIVE.to_bits()));
}

#[test]
fn numeric_order_agrees_with_the_floats() {
    let samples = [
        f32::NEG_INFINITY,
        -3.5,
        -1.0e-40,
        -0.0,
        0.0,
        1.0e-40,
        f32::MIN_POSITIVE,
        0.05,
        1.0,
        2.0,
        f32::MAX,
        f32::INFINITY,
        f32::NAN,
    ];
    for a in samples {
        for b in samples {
            assert_eq!(is_below(a.to_bits(), b.to_bits()), a < b, "{a} < {b}");
            assert_eq!(
                total_le(a.to_bits(), b.to_bits()),
                a.total_cmp(&b).is_le(),
                "{a} <= {b} in the total order"
            );
        }
    }
}

#[test]
fn raising_to_the_smallest_normal_number() {
    let floor = f32::MIN_POSITIVE.to_bits();
    assert_eq!(raise_to_min_positive(0.0f32.to_bits()), floor);
    assert_eq!(raise_to_min_positive((-0.0f32).to_bits()), floor);
    assert_eq!(raise_to_min_positive((-7.0f32).to_bits()), floor);
    assert_eq!(raise_to_min_positive(1.0e-40f32.to_bits()), floor);
    assert_eq!(raise_to_min_positive(f32::NAN.to_bits()), floor);
    assert_eq!(raise_to_min_positive(f32::NEG_INFINITY.to_bits()), floor);
    assert_eq!(raise_to_min_positive(floor), floor);
    assert_eq!(raise_to_min_positive(2.5f32.to_bits()), 2.5f32.to_bits());
    assert_eq!(
        raise_to_min_positive(f32::INFINITY.to_bits()),
        f32::INFINITY.to_bits()
    );
}

#[test]
fn optional_scores_are_ordered_with_absence_lowest() {
    let one = Some(1.0f32.to_bits());
    let two = Some(2.0f32.to_bits());
    assert!(is_score_below(None, one));
    assert!(is_score_below(one, two));
    assert!(!is_score_below(two, one));
    assert!(!is_score_below(one, one));
    assert!(!is_score_below(one, None));
    assert!(!is_score_below(None, None));
    assert!(!is_score_below(Some(0.0f32.to_bits()), Some((-0.0f32).to_bits())));
    assert!(!is_score_below(Some((-0.0f32).to_bits()), Some(0.0f32.to_bits())));
}

#[test]
fn only_finite_scores_are_kept() {
    assert_eq!(keep_finite(Some(2.0f32.to_bits())), Some(2.0f32.to_bits()));
    assert_eq!(keep_finite(Some(f32::INFINITY.to_bits())), None);
    assert_eq!(keep_finite(Some(f32::NEG_INFINITY.to_bits())), None);
    assert_eq!(keep_finite(Some(f32::NAN.to_bits())), None);
    assert_eq!(keep_finite(None), None);
}

#[test]
fn the_best_score_is_the_greatest_in_the_total_order() {
    assert_eq!(best_score(&bits(&[])), None);
    assert_eq!(best_score(&bits(&[None, None])), None);
    assert_eq!(
        best_score(&bits(&[Some(-2.0), None, Some(1.0), Some(0.1)])),
        Some(1.0f32.to_bits())
    );
    assert_eq!(
        best_score(&bits(&[Some(0.0), Some(-0.0)])),
        Some(0.0f32.to_bits())
    );
    assert_eq!(
        later_score(Some(3.0f32.to_bits()), Some((-1.0f32).to_bits())),
        Some(3.0f32.to_bits())
    );
    assert_eq!(later_score(None, Some(4.0f32.to_bits())), Some(4.0f32.to_bits()));
    assert_eq!(later_score(Some(4.0f32.to_bits()), None), Some(4.0f32.to_bits()));
}

#[test]
fn equal_scores_share_the_unit_interval_evenly() {
    let scores = bits(&[Some(0.0), Some(0.0)]);
    assert_eq!(choose_position(&scores, 0.0f32.to_bits(), &float_unit), 0);
    assert_eq!(choose_position(&scores, 0.25f32.to_bits(), &float_unit), 0);
    assert_eq!(choose_position(&scores, 0.5f32.to_bits(), &float_unit), 1);
    assert_eq!(choose_position(&scores, 0.75f32.to_bits(), &float_unit), 1);
    assert_eq!(choose_position(&scores, 0.999f32.to_bits(), &float_unit), 1);
}

#[test]
fn weights_follow_the_softmax_of_the_scores() {
    // The weights of -2, 1, 0.1 and 0 are about 0.027, 0.548, 0.223 and 0.202.
    let scores = bits(&[Some(-2.0), Some(1.0), Some(0.1), Some(0.0)]);
    assert_eq!(choose_position(&scores, 0.02f32.to_bits(), &float_unit), 0);
    assert_eq!(choose_position(&scores, 0.03f32.to_bits(), &float_unit), 1);
    assert_eq!(choose_position(&scores, 0.57f32.to_bits(), &float_unit), 1);
    assert_eq!(choose_position(&scores, 0.58f32.to_bits(), &float_unit), 2);
    assert_eq!(choose_position(&scores, 0.79f32.to_bits(), &float_unit), 2);
    assert_eq!(choose_position(&scores, 0.81f32.to_bits(), &float_unit), 3);
}

#[test]
fn positions_without_a_score_are_passed_over() {
    let scores = bits(&[None, Some(1.0), None]);
    assert_eq!(choose_position(&scores, 0.0f32.to_bits(), &float_unit), 1);
    assert_eq!(choose_position(&scores, 0.9f32.to_bits(), &float_unit), 1);
}

#[test]
fn the_last_position_is_taken_where_no_weight_exceeds_the_draw() {
    let unscored = bits(&[None, None, None]);
    assert_eq!(choose_position(&unscored, 0.3f32.to_bits(), &float_unit), 2);
    let single = bits(&[Some(5.0), None]);
    // A draw of one is never exceeded by weights that add up to one.
    assert_eq!(choose_position(&single, 1.0f32.to_bits(), &float_unit), 1);
}

#[test]
fn large_scores_do_not_overflow_the_exponential() {
    let scores = bits(&[Some(1.0e30), Some(1.0e30)]);
    assert_eq!(choose_position(&scores, 0.25f32.to_bits(), &float_unit), 0);
    assert_eq!(choose_position(&scores, 0.75f32.to_bits(), &float_unit), 1);
}
