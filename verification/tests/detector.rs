use glitch_octave::detector::{crossing, detect, Sign};

#[test]
fn crossing_needs_a_strictly_higher_sign() {
    let signs = [Sign::Negative, Sign::Zero, Sign::Positive];
    for (i, now) in signs.iter().enumerate() {
        for (j, reference) in signs.iter().enumerate() {
            assert_eq!(crossing(*now, *reference), i > j);
        }
    }
}

#[test]
fn raising_the_reference_never_adds_a_crossing() {
    let signs = [Sign::Negative, Sign::Zero, Sign::Positive];
    for now in signs {
        for low in 0..3 {
            for high in low..3 {
                if crossing(now, signs[high]) {
                    assert!(crossing(now, signs[low]));
                }
            }
        }
    }
}

#[test]
fn zero_threshold_suppresses_nothing() {
    assert!(detect(Sign::Positive, Sign::Negative, 0, 0));
    assert!(detect(Sign::Positive, Sign::Negative, u64::MAX, 0));
}

#[test]
fn draw_below_threshold_suppresses() {
    assert!(!detect(Sign::Positive, Sign::Negative, 99, 100));
    assert!(detect(Sign::Positive, Sign::Negative, 100, 100));
    assert!(detect(Sign::Positive, Sign::Negative, 101, 100));
}

#[test]
fn full_threshold_suppresses_all_but_the_last_draw() {
    assert!(!detect(Sign::Positive, Sign::Zero, 0, u64::MAX));
    assert!(!detect(Sign::Zero, Sign::Negative, u64::MAX - 1, u64::MAX));
    assert!(detect(Sign::Zero, Sign::Negative, u64::MAX, u64::MAX));
}

#[test]
fn no_draw_makes_a_crossing() {
    assert!(!detect(Sign::Negative, Sign::Positive, u64::MAX, 0));
    assert!(!detect(Sign::Zero, Sign::Zero, 5, 0));
    assert!(!detect(Sign::Positive, Sign::Positive, 5, 3));
}

#[test]
fn sign_compares_by_variant() {
    assert_eq!(Sign::Zero, Sign::Zero);
    assert_ne!(Sign::Negative, Sign::Positive);
}
