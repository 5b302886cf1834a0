use phone_detector::{PhoneDetectorFactory, PhoneType, PhoneValidator};

fn validator_for(kind: PhoneType) -> Box<dyn PhoneValidator> {
    match kind {
        PhoneType::FormattedDomestic => PhoneDetectorFactory::create_formatted_domestic_validator(),
        PhoneType::InternationalPlus => PhoneDetectorFactory::create_international_validator(),
        PhoneType::Plain10Digit => {
            PhoneDetectorFactory::create_plain_digit_validator(10, PhoneType::Plain10Digit)
        }
        PhoneType::Plain11Digit => {
            PhoneDetectorFactory::create_plain_digit_validator(11, PhoneType::Plain11Digit)
        }
        PhoneType::Mobile10Digit => PhoneDetectorFactory::create_mobile_validator(),
        _ => panic!("no validator for this kind"),
    }
}

fn check(input: &str, kind: PhoneType, expected: bool) {
    let validator = validator_for(kind);
    assert_eq!(validator.is_valid(input), expected, "input {:?}", input);
    assert_eq!(validator.get_phone_type(), kind);
}

#[test]
fn formatted_with_parentheses() {
    check("(123) 456-7890", PhoneType::FormattedDomestic, true);
}

#[test]
fn formatted_with_dashes() {
    check("123-456-7890", PhoneType::FormattedDomestic, true);
}

#[test]
fn formatted_with_dots() {
    check("123.456.7890", PhoneType::FormattedDomestic, true);
}

#[test]
fn invalid_area_code_starting_with_zero() {
    check("(012) 456-7890", PhoneType::FormattedDomestic, false);
}

#[test]
fn plain_10_digits() {
    check("2345678901", PhoneType::Plain10Digit, true);
}

#[test]
fn plain_11_digits_with_1() {
    check("12345678901", PhoneType::Plain11Digit, true);
}

#[test]
fn plain_invalid_area_code() {
    check("0234567890", PhoneType::Plain10Digit, false);
}

#[test]
fn international_format() {
    check("+1 123-456-7890", PhoneType::InternationalPlus, true);
}

#[test]
fn international_mobile_format() {
    check("+91 9876543210", PhoneType::InternationalPlus, true);
}

#[test]
fn international_format_uk() {
    check("+44 20 1234 5678", PhoneType::InternationalPlus, true);
}

#[test]
fn mobile_10_digits() {
    check("9876543210", PhoneType::Mobile10Digit, true);
}

#[test]
fn mobile_with_country_code() {
    check("919876543210", PhoneType::Mobile10Digit, true);
}

#[test]
fn valid_mobile_starting_with_5() {
    check("5876543210", PhoneType::Mobile10Digit, true);
}

#[test]
fn domestic_exchange_below_two_is_invalid() {
    check("234-156-7890", PhoneType::FormattedDomestic, false);
    check("234-256-7890", PhoneType::FormattedDomestic, true);
}

#[test]
fn domestic_needs_exactly_ten_digits() {
    check("234-567-890", PhoneType::FormattedDomestic, false);
    check("1-234-567-8900", PhoneType::FormattedDomestic, false);
}

#[test]
fn international_needs_plus_and_seven_to_fifteen_digits() {
    check("1 123-456-7890", PhoneType::InternationalPlus, false);
    check("+123456", PhoneType::InternationalPlus, false);
    check("+1234567", PhoneType::InternationalPlus, true);
    check("+123456789012345", PhoneType::InternationalPlus, true);
    check("+1234567890123456", PhoneType::InternationalPlus, false);
    check("", PhoneType::InternationalPlus, false);
}

#[test]
fn plain_11_digits_rules() {
    check("10345678901", PhoneType::Plain11Digit, false);
    check("22345678901", PhoneType::Plain11Digit, false);
    check("1-234-567-8901", PhoneType::Plain11Digit, true);
}

#[test]
fn plain_validator_of_other_length_accepts_nothing() {
    let validator = PhoneDetectorFactory::create_plain_digit_validator(12, PhoneType::Unknown);
    assert!(!validator.is_valid("123456789012"));
    assert_eq!(validator.get_phone_type(), PhoneType::Unknown);
}

#[test]
fn mobile_rules() {
    check("0876543210", PhoneType::Mobile10Digit, false);
    check("910876543210", PhoneType::Mobile10Digit, false);
    check("929876543210", PhoneType::Mobile10Digit, false);
    check("98765432101", PhoneType::Mobile10Digit, false);
}

#[test]
fn non_ascii_text_has_no_extra_digits() {
    check("tél: 234-567-8900 ☎", PhoneType::FormattedDomestic, true);
}
