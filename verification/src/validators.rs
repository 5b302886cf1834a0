//! Validators that decide whether a whole string is a phone number of one
//! kind, by the digits it contains.
use vstd::prelude::*;
use vstd::string::StringSliceAdditionalSpecFns;
use crate::text::{digits_of, extract_digits, lemma_digits_of_len, lemma_digit_chars_encode, all_digits};
use crate::types::PhoneType;

verus! {

/// Whether text `text` is accepted as a number of kind `kind`, judged by its
/// digits: the rules of the validators below.
pub open spec fn accepted_as(kind: PhoneType, text: Seq<u8>) -> bool {
    let d = digits_of(text);
    match kind {
        PhoneType::FormattedDomestic => valid_ten_digits(d),
        PhoneType::FormattedTollFree => valid_plain_digits(d, 11),
        PhoneType::InternationalPlus => text.len() > 0 && text[0] == 43 && 7 <= d.len() <= 15,
        PhoneType::Plain10Digit => valid_plain_digits(d, 10),
        PhoneType::Plain11Digit => valid_plain_digits(d, 11),
        PhoneType::Mobile10Digit => valid_mobile_digits(d),
        PhoneType::Unknown => false,
    }
}

/// Decides whether a string is a phone number of one kind.
pub trait PhoneValidator: Send + Sync {
    /// The texts this validator accepts.
    spec fn accepts(&self, phone: Seq<u8>) -> bool;

    /// The kind of number this validator accepts.
    spec fn kind(&self) -> PhoneType;

    /// Whether `phone` is a valid number of this validator's kind.
    fn is_valid(&self, phone: &str) -> (r: bool)
        ensures
            r == self.accepts(phone.spec_bytes()),
    ;

    /// The kind of number this validator accepts.
    fn get_phone_type(&self) -> (r: PhoneType)
        ensures
            r == self.kind(),
    ;
}

/// Ten digits, the first not `0` and the fourth at least `2`.
pub open spec fn valid_ten_digits(d: Seq<u8>) -> bool {
    d.len() == 10 && d[0] != 48 && d[3] >= 50
}

/// The UTF-8 encoding of the digits extracted from a text is the sequence of
/// its digit bytes.
proof fn lemma_extracted_digits_encode(text: Seq<u8>, extracted: Seq<char>)
    requires
        extracted == crate::text::chars_of(digits_of(text)),
    ensures
        vstd::utf8::encode_utf8(extracted) == digits_of(text),
{
    lemma_digits_of_len(text);
    assert(all_digits(digits_of(text)));
    lemma_digit_chars_encode(digits_of(text));
}

/// Accepts formatted domestic numbers: ten digits, the first not `0` and the
/// fourth at least `2`.
pub struct FormattedDomesticValidator;

impl PhoneValidator for FormattedDomesticValidator {
    open spec fn accepts(&self, phone: Seq<u8>) -> bool {
        accepted_as(PhoneType::FormattedDomestic, phone)
    }

    open spec fn kind(&self) -> PhoneType {
        PhoneType::FormattedDomestic
    }

    fn is_valid(&self, phone: &str) -> (r: bool) {
        let digits = extract_digits(phone);
        let bytes = digits.as_str().as_bytes();
        proof {
            lemma_extracted_digits_encode(phone.spec_bytes(), digits@);
        }
        if bytes.len() != 10 {
            return false;
        }
        bytes[0] != 48 && bytes[3] >= 50
    }

    fn get_phone_type(&self) -> (r: PhoneType)
    {
        PhoneType::FormattedDomestic
    }
}

/// Accepts international numbers: a leading `+` and seven to fifteen digits.
pub struct InternationalValidator;

impl PhoneValidator for InternationalValidator {
    open spec fn accepts(&self, phone: Seq<u8>) -> bool {
        accepted_as(PhoneType::InternationalPlus, phone)
    }

    open spec fn kind(&self) -> PhoneType {
        PhoneType::InternationalPlus
    }

    fn is_valid(&self, phone: &str) -> (r: bool) {
        let raw = phone.as_bytes();
        if raw.len() == 0 || raw[0] != 43 {
            return false;
        }
        let digits = extract_digits(phone);
        let bytes = digits.as_str().as_bytes();
        proof {
            lemma_extracted_digits_encode(phone.spec_bytes(), digits@);
        }
        7 <= bytes.len() && bytes.len() <= 15
    }

    fn get_phone_type(&self) -> (r: PhoneType)
    {
        PhoneType::InternationalPlus
    }
}

/// Accepts plain numbers of a given number of digits: ten digits, the first
/// not `0` and the fourth at least `2`; or eleven digits, `1` and then not `0`.
/// Other lengths accept nothing.
pub struct PlainDigitValidator {
    expected_length: usize,
    phone_type: PhoneType,
}

impl PlainDigitValidator {
    /// The number of digits this validator accepts.
    pub closed spec fn expected_len(&self) -> usize {
        self.expected_length
    }

    /// The kind this validator reports.
    pub closed spec fn reported_kind(&self) -> PhoneType {
        self.phone_type
    }

    /// A validator of numbers of `expected_length` digits, of kind `phone_type`.
    pub fn new(expected_length: usize, phone_type: PhoneType) -> (r: Self)
        ensures
            r.expected_len() == expected_length,
            r.reported_kind() == phone_type,
    {
        PlainDigitValidator { expected_length, phone_type }
    }
}

/// Whether digits `d` make a valid plain number of `length` digits.
pub open spec fn valid_plain_digits(d: Seq<u8>, length: usize) -> bool {
    d.len() == length && if length == 10 {
        d[0] != 48 && d[3] >= 50
    } else if length == 11 {
        d[0] == 49 && d[1] != 48
    } else {
        false
    }
}

impl PhoneValidator for PlainDigitValidator {
    open spec fn accepts(&self, phone: Seq<u8>) -> bool {
        valid_plain_digits(digits_of(phone), self.expected_len())
    }

    open spec fn kind(&self) -> PhoneType {
        self.reported_kind()
    }

    fn is_valid(&self, phone: &str) -> (r: bool) {
        let digits = extract_digits(phone);
        let bytes = digits.as_str().as_bytes();
        proof {
            lemma_extracted_digits_encode(phone.spec_bytes(), digits@);
        }
        if bytes.len() != self.expected_length {
            return false;
        }
        if self.expected_length == 10 {
            bytes[0] != 48 && bytes[3] >= 50
        } else if self.expected_length == 11 {
            bytes[0] == 49 && bytes[1] != 48
        } else {
            false
        }
    }

    fn get_phone_type(&self) -> (r: PhoneType) {
        self.phone_type
    }
}

/// Whether digits `d` make a mobile number: ten digits starting with `1`..`9`,
/// or twelve digits starting with `91` and then `1`..`9`.
pub open spec fn valid_mobile_digits(d: Seq<u8>) -> bool {
    if d.len() == 10 {
        49 <= d[0] <= 57
    } else if d.len() == 12 {
        d[0] == 57 && d[1] == 49 && 49 <= d[2] <= 57
    } else {
        false
    }
}

/// Accepts mobile numbers, with or without the `91` country code.
pub struct MobileValidator;

impl PhoneValidator for MobileValidator {
    open spec fn accepts(&self, phone: Seq<u8>) -> bool {
        accepted_as(PhoneType::Mobile10Digit, phone)
    }

    open spec fn kind(&self) -> PhoneType {
        PhoneType::Mobile10Digit
    }

    fn is_valid(&self, phone: &str) -> (r: bool) {
        let digits = extract_digits(phone);
        let bytes = digits.as_str().as_bytes();
        proof {
            lemma_extracted_digits_encode(phone.spec_bytes(), digits@);
        }
        if bytes.len() == 10 {
            return bytes[0] >= 49 && bytes[0] <= 57;
        }
        if bytes.len() == 12 {
            return bytes[0] == 57 && bytes[1] == 49 && bytes[2] >= 49 && bytes[2] <= 57;
        }
        false
    }

    fn get_phone_type(&self) -> (r: PhoneType)
    {
        PhoneType::Mobile10Digit
    }
}

} // verus!
