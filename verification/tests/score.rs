use flp_vault::score::{bpm_signal, temporal_signal, compute_confidence, trigram_millis};

// Tempos are in milli-BPM, signals and confidences in thousandths.

#[test]
fn test_bpm_same() {
    assert_eq!(bpm_signal(Some(128_000), Some(128_000)), 150);
}

#[test]
fn test_bpm_close() {
    assert_eq!(bpm_signal(Some(128_000), Some(128_500)), 150);
}

#[test]
fn test_bpm_different() {
    assert_eq!(bpm_signal(Some(128_000), Some(140_000)), -100);
}

#[test]
fn test_bpm_null() {
    assert_eq!(bpm_signal(None, Some(128_000)), 0);
    assert_eq!(bpm_signal(Some(128_000), None), 0);
}

#[test]
fn test_temporal_same_day() {
    let t = 1_700_000_000_i64;
    assert_eq!(temporal_signal(t, t + 3600), 100);
}

#[test]
fn test_temporal_week_apart() {
    let t = 1_700_000_000_i64;
    assert_eq!(temporal_signal(t, t + 7 * 86400), 50);
}

#[test]
fn test_temporal_month_apart() {
    let t = 1_700_000_000_i64;
    assert_eq!(temporal_signal(t, t + 60 * 86400), 0);
}

#[test]
fn test_identical_names_high_confidence() {
    let score = compute_confidence(
        "acid bass line",
        "acid bass line",
        Some(128_000),
        Some(128_000),
        1_700_000_000,
        1_700_000_000,
    );
    assert!(score > 900);
}

#[test]
fn test_different_names_low_confidence() {
    let score = compute_confidence(
        "acid bass line",
        "funky groove master",
        Some(128_000),
        Some(90_000),
        1_700_000_000,
        1_700_000_000,
    );
    assert!(score < 400);
}

#[test]
fn test_short_name_exact_match() {
    let score = compute_confidence("hi", "hi", Some(128_000), Some(128_000),
        1_700_000_000, 1_700_000_000);
    assert!(score > 900);
}

#[test]
fn test_short_name_no_match() {
    let score = compute_confidence("hi", "ho", None, None, 1_700_000_000, 1_700_000_000);
    assert!(score < 300);
}

#[test]
fn test_confidence_clamped_to_one() {
    // even with every bonus the score stays at one
    let score = compute_confidence(
        "test name",
        "test name",
        Some(128_000),
        Some(128_000),
        1_700_000_000,
        1_700_000_000,
    );
    assert!(score <= 1000);
    assert_eq!(score, 1000);
}

#[test]
fn test_trigram_exact_value() {
    // "abcd": {  a,  ab, abc, bcd, cd } and "abce": {  a,  ab, abc, bce, ce }
    // share 3 of 7 distinct trigrams
    assert_eq!(trigram_millis("abcd", "abce"), 1000 * 3 / 7);
}

#[test]
fn test_trigram_identical_long_names() {
    assert_eq!(trigram_millis("acid bass line", "acid bass line"), 1000);
}
