use doc_inventory::redact::{redact_isolated_runs, redact_nhs_numbers, slice_str};

#[test]
fn redacts_ten_digits() {
    assert_eq!(redact_nhs_numbers("1234567890"), "[REDACTED]");
}

#[test]
fn redacts_spaced_digits() {
    assert_eq!(redact_nhs_numbers("123 456 7890"), "[REDACTED]");
}

#[test]
fn keeps_eleven_digits() {
    assert_eq!(redact_nhs_numbers("12345678901"), "12345678901");
}

#[test]
fn keeps_text_without_digits() {
    assert_eq!(redact_nhs_numbers(""), "");
    assert_eq!(redact_nhs_numbers("patients.csv"), "patients.csv");
}

#[test]
fn redacts_inside_a_name() {
    assert_eq!(redact_nhs_numbers("scan_1234567890.pdf"), "scan_[REDACTED].pdf");
    assert_eq!(redact_nhs_numbers("a 123  456\t7890 b"), "a [REDACTED] b");
}

#[test]
fn redacts_every_isolated_run() {
    assert_eq!(
        redact_nhs_numbers("1234567890-0987654321"),
        "[REDACTED]-[REDACTED]"
    );
}

#[test]
fn keeps_runs_inside_longer_numbers() {
    let twenty = "12345678901234567890";
    assert_eq!(redact_nhs_numbers(twenty), twenty);
    let twenty_five = "1234567890123456789012345";
    assert_eq!(redact_nhs_numbers(twenty_five), twenty_five);
    assert_eq!(redact_nhs_numbers("123456789"), "123456789");
}

#[test]
fn spaced_form_goes_first() {
    // The spaced pattern takes the last ten digits of the longer run.
    assert_eq!(redact_nhs_numbers("9123 456 7890"), "9[REDACTED]");
}

#[test]
fn keeps_text_of_other_scripts() {
    assert_eq!(redact_nhs_numbers("日本語 1234567890 é"), "日本語 [REDACTED] é");
}

#[test]
fn isolated_runs_by_given_ranges() {
    let spans = vec![(0usize, 10usize)];
    assert_eq!(redact_isolated_runs("1234567890", &spans), "[REDACTED]");
    assert_eq!(redact_isolated_runs("12345678901", &spans), "12345678901");
    let none: Vec<(usize, usize)> = Vec::new();
    assert_eq!(redact_isolated_runs("abc", &none), "abc");
    let two = vec![(1usize, 3usize), (4usize, 6usize)];
    assert_eq!(redact_isolated_runs("a12b34c", &two), "a[REDACTED]b[REDACTED]c");
    let touching = vec![(1usize, 3usize)];
    assert_eq!(redact_isolated_runs("a123", &touching), "a123");
    assert_eq!(redact_isolated_runs("712b", &touching), "712b");
}

#[test]
fn slices_between_byte_offsets() {
    assert_eq!(slice_str("héllo", 0, 3), "hé");
    assert_eq!(slice_str("héllo", 3, 6), "llo");
    assert_eq!(slice_str("héllo", 3, 3), "");
}
