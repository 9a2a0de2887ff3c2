use framer::units::Length;

fn from_inches(inches: f64) -> Length {
    Length::from_ticks((inches * 16.0).round() as i64)
}

#[test]
fn length_formats_fractional_inches() {
    assert_eq!(from_inches(97.5).to_display_string(), "8' 1 1/2\"");
}

#[test]
fn length_formats_whole_and_negative_lengths() {
    assert_eq!(Length::zero().to_display_string(), "0' 0\"");
    assert_eq!(Length::from_whole_inches(120).to_display_string(), "10' 0\"");
    assert_eq!(Length::from_ticks(-3).to_display_string(), "-0' 0 3/16\"");
    assert_eq!(Length::from_ticks(16 * 14 + 12).to_display_string(), "1' 2 3/4\"");
}
