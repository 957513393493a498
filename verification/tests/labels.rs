use arbor::labels::{fmt_ai_eve, fmt_ai_time};

#[test]
fn fmt_ai_time_displays_the_raw_second_count() {
    assert_eq!(fmt_ai_time(1), "1");
    assert_eq!(fmt_ai_time(20), "20");
}

#[test]
fn fmt_ai_eve_scales_the_raw_slider_value_down_to_the_real_exploration_constant() {
    assert_eq!(fmt_ai_eve(20), "1.00");
    assert_eq!(fmt_ai_eve(28), "1.40");
    assert_eq!(fmt_ai_eve(40), "2.00");
}

#[test]
fn labels_handle_zero_and_large_values() {
    assert_eq!(fmt_ai_time(0), "0");
    assert_eq!(fmt_ai_time(4294967295), "4294967295");
    assert_eq!(fmt_ai_eve(0), "0.00");
    assert_eq!(fmt_ai_eve(21), "1.05");
    assert_eq!(fmt_ai_eve(33), "1.65");
}
