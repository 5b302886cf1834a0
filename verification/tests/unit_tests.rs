use phone_detector::limiter::BATCH_SIZE;
use phone_detector::safe_arithmetic;
use phone_detector::scan_spec::{MAX_INPUT_SIZE, MAX_MEMORY_BUDGET, MAX_PHONES_EXTRACT};
use phone_detector::text::extract_digits;
use phone_detector::{
    extract_phones, text_contains_phone, BatchState, CharacterClassifier, OperationLimiter,
    PhoneDetectorFactory, PhoneMatch, PhoneScanner, PhoneScannerService, PhoneType, StatsSnapshot,
    ThreadSafeErrorCounter, ValidationStats,
};

fn snapshot(validations: u64, scans: u64, extracts: u64, phones_found: u64, errors: u64) -> StatsSnapshot {
    StatsSnapshot { validations, scans, extracts, phones_found, errors }
}

fn phone(kind: PhoneType, value: &str, normalized: &str, position: usize) -> PhoneMatch {
    PhoneMatch {
        phone_type: kind,
        value: value.to_string(),
        normalized: normalized.to_string(),
        position,
    }
}

// ---------------------------------------------------------------------------
// Overflow-aware arithmetic
// ---------------------------------------------------------------------------

#[test]
fn checked_add_fits_and_overflows() {
    assert_eq!(safe_arithmetic::add(2, 3), (5, true));
    assert_eq!(safe_arithmetic::add(usize::MAX - 1, 1), (usize::MAX, true));
    assert_eq!(safe_arithmetic::add(usize::MAX, 1), (usize::MAX, false));
}

#[test]
fn checked_subtract_fits_and_underflows() {
    assert_eq!(safe_arithmetic::subtract(5, 3), (2, true));
    assert_eq!(safe_arithmetic::subtract(3, 3), (0, true));
    assert_eq!(safe_arithmetic::subtract(3, 5), (0, false));
}

#[test]
fn checked_multiply_fits_and_overflows() {
    assert_eq!(safe_arithmetic::multiply(4, 5), (20, true));
    assert_eq!(safe_arithmetic::multiply(0, usize::MAX), (0, true));
    assert_eq!(safe_arithmetic::multiply(usize::MAX, 2), (usize::MAX, false));
}

#[test]
fn saturating_operations_clamp() {
    assert_eq!(safe_arithmetic::saturating_add(7, 8), 15);
    assert_eq!(safe_arithmetic::saturating_add(usize::MAX, 1), usize::MAX);
    assert_eq!(safe_arithmetic::saturating_subtract(8, 7), 1);
    assert_eq!(safe_arithmetic::saturating_subtract(7, 8), 0);
}

// ---------------------------------------------------------------------------
// Counters and statistics
// ---------------------------------------------------------------------------

#[test]
fn error_counter_counts_and_resets() {
    let mut counter = ThreadSafeErrorCounter::new();
    assert_eq!(counter.get_count(), 0);
    counter.record_error();
    counter.record_error();
    counter.record_error();
    assert_eq!(counter.get_count(), 3);
    counter.reset();
    assert_eq!(counter.get_count(), 0);
    assert_eq!(ThreadSafeErrorCounter::default().get_count(), 0);
}

#[test]
fn snapshot_success_count_saturates() {
    assert_eq!(snapshot(0, 10, 0, 0, 3).get_success_count(), 7);
    assert_eq!(snapshot(0, 2, 0, 0, 5).get_success_count(), 0);
    assert!(snapshot(0, 0, 0, 0, 1).has_errors());
    assert!(!snapshot(4, 4, 4, 4, 0).has_errors());
    assert_eq!(StatsSnapshot::default(), snapshot(0, 0, 0, 0, 0));
}

#[test]
fn validation_stats_record_each_counter() {
    let mut stats = ValidationStats::new();
    assert_eq!(stats.get_snapshot(), snapshot(0, 0, 0, 0, 0));
    stats.record_validation();
    stats.record_scan();
    stats.record_scan();
    stats.record_extract();
    stats.record_phone_found();
    stats.record_phone_found();
    stats.record_phone_found();
    stats.record_error();
    assert_eq!(stats.get_snapshot(), snapshot(1, 2, 1, 3, 1));
    assert_eq!(stats.get_relaxed_snapshot(), snapshot(1, 2, 1, 3, 1));
    stats.reset();
    assert_eq!(stats.get_snapshot(), snapshot(0, 0, 0, 0, 0));
    assert_eq!(ValidationStats::default().get_snapshot(), snapshot(0, 0, 0, 0, 0));
}

// ---------------------------------------------------------------------------
// Character classes
// ---------------------------------------------------------------------------

#[test]
fn classifier_matches_the_character_table() {
    for c in 0u8..=255 {
        let digit = c.is_ascii_digit();
        let separator = matches!(c, 9 | 10 | 13 | 32 | b'-' | b'.');
        let plus = c == b'+';
        let paren = c == b'(' || c == b')';
        let boundary = matches!(
            c,
            9 | 10 | 13 | 32 | b',' | b':' | b';' | b'<' | b'>' | b'[' | b']' | b'{' | b'}'
        );
        assert_eq!(CharacterClassifier::is_digit(c), digit, "digit {}", c);
        assert_eq!(CharacterClassifier::is_separator(c), separator, "separator {}", c);
        assert_eq!(CharacterClassifier::is_plus(c), plus, "plus {}", c);
        assert_eq!(CharacterClassifier::is_paren(c), paren, "paren {}", c);
        assert_eq!(CharacterClassifier::is_boundary(c), boundary, "boundary {}", c);
        assert_eq!(
            CharacterClassifier::is_phone_char(c),
            digit || separator || plus || paren || boundary,
            "phone char {}",
            c
        );
    }
}

#[test]
fn phone_type_names() {
    assert_eq!(PhoneType::FormattedDomestic.as_str(), "FORMATTED_DOMESTIC");
    assert_eq!(PhoneType::FormattedTollFree.as_str(), "FORMATTED_TOLL_FREE");
    assert_eq!(PhoneType::InternationalPlus.as_str(), "INTERNATIONAL_PLUS");
    assert_eq!(PhoneType::Plain10Digit.as_str(), "PLAIN_10_DIGIT");
    assert_eq!(PhoneType::Plain11Digit.as_str(), "PLAIN_11_DIGIT");
    assert_eq!(PhoneType::Mobile10Digit.as_str(), "MOBILE_10_DIGIT");
    assert_eq!(PhoneType::Unknown.as_str(), "UNKNOWN");
}

#[test]
fn extract_digits_keeps_only_digits() {
    assert_eq!(extract_digits("(123) 456-7890"), "1234567890");
    assert_eq!(extract_digits("+1 (415) 555-0182"), "14155550182");
    assert_eq!(extract_digits("no digits"), "");
    assert_eq!(extract_digits("é1ü2"), "12");
}

// ---------------------------------------------------------------------------
// Operation limiter
// ---------------------------------------------------------------------------

#[test]
fn limiter_moves_full_batches() {
    let mut limiter = OperationLimiter::new(5000);
    let mut batch = BatchState::new();
    for _ in 0..BATCH_SIZE - 1 {
        assert!(limiter.record_operation(&mut batch));
    }
    assert_eq!(limiter.get_count(), 0);
    assert!(limiter.record_operation(&mut batch));
    assert_eq!(limiter.get_count(), BATCH_SIZE);
    for _ in 0..10 {
        limiter.record_operation(&mut batch);
    }
    limiter.flush(&batch);
    assert_eq!(limiter.get_count(), BATCH_SIZE + 10);
    assert!(limiter.is_within_limit());
    limiter.reset();
    assert_eq!(limiter.get_count(), 0);
}

#[test]
fn limiter_reports_exceeded_limit() {
    let mut limiter = OperationLimiter::new(1);
    let mut batch = BatchState::default();
    let mut last = true;
    for _ in 0..BATCH_SIZE {
        last = limiter.record_operation(&mut batch);
    }
    assert!(!last);
    assert!(!limiter.is_within_limit());
    limiter.reset();
    assert!(limiter.is_within_limit());
}

#[test]
fn flush_of_empty_batch_changes_nothing() {
    let mut limiter = OperationLimiter::new(10);
    limiter.flush(&BatchState::new());
    assert_eq!(limiter.get_count(), 0);
}

// ---------------------------------------------------------------------------
// Detection
// ---------------------------------------------------------------------------

#[test]
fn contains_each_kind() {
    let scanner = PhoneScanner::new();
    assert!(scanner.contains("Call +91 9876543210 now"));
    assert!(scanner.contains("Call (234) 567-8900 now"));
    assert!(scanner.contains("Call 234-567-8900 now"));
    assert!(scanner.contains("Call 2345678901 now"));
    assert!(!scanner.contains("No phone numbers here!"));
    assert!(!scanner.contains("456-7890"));
    assert!(!scanner.contains("short"));
    assert!(!scanner.contains(""));
}

#[test]
fn contains_refuses_oversized_input() {
    let mut text = "x".repeat(MAX_INPUT_SIZE + 1);
    text.replace_range(0..10, "2345678901");
    assert!(!text_contains_phone(&text));
    assert!(PhoneScanner::new().extract(&text).is_empty());
}

#[test]
fn contains_and_extract_may_differ() {
    // A digit run next to letters is not a reportable number but counts as
    // a hit for the quick check.
    assert!(text_contains_phone("2041678901"));
    assert!(extract_phones("2041678901").is_empty());
}

// ---------------------------------------------------------------------------
// Extraction
// ---------------------------------------------------------------------------

#[test]
fn extract_drops_repeated_numbers() {
    let m = extract_phones("Call 234-567-8900 or (234) 567-8900 today");
    assert_eq!(m.len(), 1);
    assert_eq!(m[0].value, "234-567-8900");
    assert_eq!(m[0].normalized, "2345678900");
    assert_eq!(m[0].position, 5);
}

#[test]
fn extract_gives_positions_in_order_without_overlap() {
    let text = "a 234-567-8900, b +44 20 7946 0123, c 98765 43210";
    let m = extract_phones(text);
    assert_eq!(m.len(), 3);
    for w in m.windows(2) {
        assert!(w[0].position + w[0].value.len() <= w[1].position);
    }
    for p in &m {
        assert_eq!(&text[p.position..p.position + p.value.len()], p.value);
        assert_eq!(p.normalized, extract_digits(&p.value));
    }
}

#[test]
fn extract_short_text_is_empty() {
    assert!(extract_phones("123456").is_empty());
    assert!(extract_phones("").is_empty());
}

#[test]
fn extract_too_many_numbers_is_empty() {
    let mut text = String::new();
    for k in 0..(MAX_PHONES_EXTRACT + 1) {
        text.push_str(&format!("+1 {:010} ", 2000000000u64 + k as u64));
    }
    assert!(extract_phones(&text).is_empty());
}

#[test]
fn select_matches_orders_and_filters() {
    let scanner = PhoneScanner::new();
    let matches = vec![
        phone(PhoneType::Plain10Digit, "2345678901", "2345678901", 20),
        phone(PhoneType::FormattedDomestic, "(234) 567-8900", "2345678900", 0),
        phone(PhoneType::Mobile10Digit, "9876543210", "9876543210", 5),
        phone(PhoneType::Plain10Digit, "2345678900", "2345678900", 40),
    ];
    let kept = scanner.select_matches(matches, &vec![1, 1, 1, 1]);
    let summary: Vec<(PhoneType, usize)> = kept.iter().map(|m| (m.phone_type, m.position)).collect();
    assert_eq!(summary, vec![(PhoneType::FormattedDomestic, 0), (PhoneType::Plain10Digit, 20)]);
}

#[test]
fn select_matches_keeps_equal_positions_in_order() {
    let scanner = PhoneScanner::new();
    let matches = vec![
        phone(PhoneType::InternationalPlus, "+1 234-567-8900", "12345678900", 3),
        phone(PhoneType::FormattedDomestic, "234-567-8900", "2345678900", 3),
    ];
    let kept = scanner.select_matches(matches, &vec![10, 10]);
    assert_eq!(kept.len(), 1);
    assert_eq!(kept[0].phone_type, PhoneType::InternationalPlus);
}

#[test]
fn select_matches_over_budget_is_empty() {
    let scanner = PhoneScanner::new();
    let matches = vec![
        phone(PhoneType::Plain10Digit, "2345678901", "2345678901", 0),
        phone(PhoneType::Plain10Digit, "3456789012", "3456789012", 20),
    ];
    assert!(scanner.select_matches(matches, &vec![MAX_MEMORY_BUDGET, 1]).is_empty());
    let matches = vec![phone(PhoneType::Plain10Digit, "2345678901", "2345678901", 0)];
    assert_eq!(scanner.select_matches(matches, &vec![MAX_MEMORY_BUDGET]).len(), 1);
    assert!(scanner.select_matches(Vec::new(), &Vec::new()).is_empty());
}

// ---------------------------------------------------------------------------
// Service, factory and convenience functions
// ---------------------------------------------------------------------------

#[test]
fn service_counts_scans_and_extractions() {
    let mut service = PhoneScannerService::new();
    assert!(service.contains("Call (234) 567-8900"));
    assert!(!service.contains("nothing here"));
    let found = service.extract("Call (234) 567-8900 or +91 9876543210");
    assert_eq!(found.len(), 2);
    assert!(service.extract("nothing here").is_empty());
    assert_eq!(service.get_stats().get_snapshot(), snapshot(0, 2, 2, 3, 2));
    service.reset_stats();
    assert_eq!(service.get_stats().get_snapshot(), snapshot(0, 0, 0, 0, 0));
    assert_eq!(PhoneScannerService::default().get_stats().get_snapshot(), snapshot(0, 0, 0, 0, 0));
}

#[test]
fn factory_builds_working_parts() {
    assert!(PhoneDetectorFactory::create_scanner().contains("Call (234) 567-8900"));
    let service = PhoneDetectorFactory::create_scanner_service();
    assert_eq!(service.get_stats().get_snapshot(), snapshot(0, 0, 0, 0, 0));
    let shared = PhoneDetectorFactory::create_shared_scanner_service();
    assert_eq!(shared.get_stats().get_snapshot(), snapshot(0, 0, 0, 0, 0));
    let plain = PhoneDetectorFactory::create_plain_digit_validator(11, PhoneType::Plain11Digit);
    assert!(plain.is_valid("12345678901"));
    assert!(!plain.is_valid("2345678901"));
    assert_eq!(plain.get_phone_type(), PhoneType::Plain11Digit);
}

#[test]
fn convenience_functions_agree_with_scanner() {
    let text = "Office: +1 234-567-8900, Mobile: 9876543210";
    let scanner = PhoneScanner::default();
    assert_eq!(text_contains_phone(text), scanner.contains(text));
    let a = extract_phones(text);
    let b = scanner.extract(text);
    assert_eq!(a.len(), b.len());
    for (x, y) in a.iter().zip(b.iter()) {
        assert_eq!((x.phone_type, x.position, &x.value, &x.normalized), (y.phone_type, y.position, &y.value, &y.normalized));
    }
}

#[test]
fn texts_with_few_digits_hold_no_number() {
    for text in ["phone: 123-456", "+1 (23) 45-6 ext", "call 98 76 54 now", "(234) 567-89"] {
        assert!(!text_contains_phone(text), "text {:?}", text);
        assert!(extract_phones(text).is_empty(), "text {:?}", text);
    }
}

#[test]
fn reported_numbers_respect_length_and_digit_limits() {
    let texts = [
        "Long spaced: +1 2 3 4 5 6 7 8 9 0 1 2 3 4 5 6 7 8 9 end",
        "Groups: 1 2 3 4 5 6 7 8 9 0 1 and 98765 43210",
        "Mixed: +44 (20) 7946-0123, 1.800.555.0199, 12345678901",
    ];
    for text in texts {
        for p in extract_phones(text) {
            assert!(p.value.len() <= 30, "value {:?}", p.value);
            assert!((7..=15).contains(&p.normalized.len()), "digits {:?}", p.normalized);
            assert_eq!(&text[p.position..p.position + p.value.len()], p.value);
        }
    }
}

#[test]
fn limiter_publishes_whole_batches_then_flush_counts_all() {
    let mut limiter = OperationLimiter::new(100_000);
    let mut batch = BatchState::new();
    for _ in 0..2500 {
        limiter.record_operation(&mut batch);
    }
    assert_eq!(limiter.get_count(), 2000);
    limiter.flush(&batch);
    assert_eq!(limiter.get_count(), 2500);
}

#[test]
fn prefix_byte_moves_numbers_one_position() {
    let texts = [
        "Contact us at (234) 567-8900 or +91-9876543210.",
        "+44 20 7946 0123 and 98765 43210",
        "2345678901 then 1-800-555-0199",
    ];
    for t in texts {
        let u = format!("x{}", t);
        let a = extract_phones(t);
        let b = extract_phones(&u);
        assert_eq!(a.len(), b.len(), "text {:?}", t);
        assert!(!a.is_empty());
        for (p, q) in a.iter().zip(b.iter()) {
            assert_eq!((p.phone_type, &p.value, &p.normalized), (q.phone_type, &q.value, &q.normalized));
            assert_eq!(p.position + 1, q.position);
        }
    }
}
