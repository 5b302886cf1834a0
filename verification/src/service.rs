//! A scanner that keeps statistics, a factory for validators and scanners,
//! and convenience functions.
use vstd::prelude::*;
use vstd::string::StringSliceAdditionalSpecFns;
use std::sync::Arc;
use crate::counters::{StatsSnapshot, ValidationStats, wrapping_add_u64};
use crate::scan_props::extraction_of;
use crate::scan_spec::contains_spec;
use crate::scanner::PhoneScanner;
use crate::types::{PhoneMatch, PhoneType};
use crate::text::digits_of;
use crate::validators::{
    accepted_as, valid_plain_digits, FormattedDomesticValidator, InternationalValidator, MobileValidator, PhoneValidator,
    PlainDigitValidator,
};

verus! {

impl Default for PhoneScanner {
    fn default() -> (r: Self) {
        PhoneScanner::new()
    }
}

/// A scanner that counts its scans, extractions, the numbers it found and the
/// scans or extractions that found none.
pub struct PhoneScannerService {
    scanner: PhoneScanner,
    stats: ValidationStats,
}

impl PhoneScannerService {
    /// The current values of the service's counters.
    pub closed spec fn counts(&self) -> StatsSnapshot {
        self.stats.counts()
    }

    /// A service with a new scanner and counters at zero.
    pub fn new() -> (r: Self)
        ensures
            r.counts() == crate::counters::zero_snapshot(),
    {
        PhoneScannerService { scanner: PhoneScanner::new(), stats: ValidationStats::new() }
    }

    /// Whether `text` holds a phone number; counts a scan, and a number found
    /// or else an error.
    pub fn contains(&mut self, text: &str) -> (r: bool)
        ensures
            r == contains_spec(text.spec_bytes()),
            r ==> final(self).counts() == (StatsSnapshot {
                scans: wrapping_add_u64(old(self).counts().scans, 1),
                phones_found: wrapping_add_u64(old(self).counts().phones_found, 1),
                ..old(self).counts()
            }),
            !r ==> final(self).counts() == (StatsSnapshot {
                scans: wrapping_add_u64(old(self).counts().scans, 1),
                errors: wrapping_add_u64(old(self).counts().errors, 1),
                ..old(self).counts()
            }),
    {
        self.stats.record_scan();
        let result = self.scanner.contains(text);
        if result {
            self.stats.record_phone_found();
        } else {
            self.stats.record_error();
        }
        result
    }

    /// The phone numbers in `text`; counts an extraction, and each number
    /// found, or an error when none was found.
    pub fn extract(&mut self, text: &str) -> (res: Vec<PhoneMatch>)
        ensures
            extraction_of(text.spec_bytes(), res@),
            res@.len() == 0 ==> final(self).counts() == (StatsSnapshot {
                extracts: wrapping_add_u64(old(self).counts().extracts, 1),
                errors: wrapping_add_u64(old(self).counts().errors, 1),
                ..old(self).counts()
            }),
            res@.len() > 0 ==> final(self).counts() == (StatsSnapshot {
                extracts: wrapping_add_u64(old(self).counts().extracts, 1),
                phones_found: wrapping_add_u64(old(self).counts().phones_found, res@.len()),
                ..old(self).counts()
            }),
    {
        self.stats.record_extract();
        let result = self.scanner.extract(text);
        if result.len() == 0 {
            self.stats.record_error();
        } else {
            let ghost start = self.stats.counts();
            let mut k: usize = 0;
            while k < result.len()
                invariant
                    k <= result@.len(),
                    self.stats.counts() == (StatsSnapshot {
                        phones_found: wrapping_add_u64(start.phones_found, k as nat),
                        ..start
                    }),
                decreases result@.len() - k,
            {
                self.stats.record_phone_found();
                k += 1;
            }
        }
        result
    }

    /// The service's counters.
    pub fn get_stats(&self) -> (r: &ValidationStats)
        ensures
            r.counts() == self.counts(),
    {
        &self.stats
    }

    /// Sets the service's counters back to zero.
    pub fn reset_stats(&mut self)
        ensures
            final(self).counts() == crate::counters::zero_snapshot(),
    {
        self.stats.reset();
    }
}

impl Default for PhoneScannerService {
    fn default() -> (r: Self)
        ensures
            r.counts() == crate::counters::zero_snapshot(),
    {
        Self::new()
    }
}

/// Creates validators, scanners and services.
pub struct PhoneDetectorFactory;

impl PhoneDetectorFactory {
    /// A validator of formatted domestic numbers.
    pub fn create_formatted_domestic_validator() -> (r: Box<dyn PhoneValidator>)
        ensures
            forall|p: Seq<u8>| r.accepts(p) == accepted_as(PhoneType::FormattedDomestic, p),
            r.kind() == PhoneType::FormattedDomestic,
    {
        return Box::new(FormattedDomesticValidator);
    }

    /// A validator of international numbers.
    pub fn create_international_validator() -> (r: Box<dyn PhoneValidator>)
        ensures
            forall|p: Seq<u8>| r.accepts(p) == accepted_as(PhoneType::InternationalPlus, p),
            r.kind() == PhoneType::InternationalPlus,
    {
        return Box::new(InternationalValidator);
    }

    /// A validator of plain numbers of `length` digits, of kind `phone_type`.
    pub fn create_plain_digit_validator(length: usize, phone_type: PhoneType) -> (r: Box<
        dyn PhoneValidator,
    >)
        ensures
            forall|p: Seq<u8>| r.accepts(p) == valid_plain_digits(digits_of(p), length),
            r.kind() == phone_type,
    {
        return Box::new(PlainDigitValidator::new(length, phone_type));
    }

    /// A validator of mobile numbers.
    pub fn create_mobile_validator() -> (r: Box<dyn PhoneValidator>)
        ensures
            forall|p: Seq<u8>| r.accepts(p) == accepted_as(PhoneType::Mobile10Digit, p),
            r.kind() == PhoneType::Mobile10Digit,
    {
        return Box::new(MobileValidator);
    }

    /// A scanner with the default limits.
    pub fn create_scanner() -> (r: PhoneScanner) {
        PhoneScanner::new()
    }

    /// A service with counters at zero.
    pub fn create_scanner_service() -> (r: PhoneScannerService)
        ensures
            r.counts() == crate::counters::zero_snapshot(),
    {
        PhoneScannerService::new()
    }

    /// A shareable service with counters at zero.
    pub fn create_shared_scanner_service() -> (r: Arc<PhoneScannerService>)
        ensures
            r.counts() == crate::counters::zero_snapshot(),
    {
        Arc::new(PhoneScannerService::new())
    }
}

/// Whether `text` holds a phone number.
pub fn text_contains_phone(text: &str) -> (r: bool)
    ensures
        r == contains_spec(text.spec_bytes()),
{
    PhoneScanner::new().contains(text)
}

/// The phone numbers in `text`.
pub fn extract_phones(text: &str) -> (res: Vec<PhoneMatch>)
    ensures
        extraction_of(text.spec_bytes(), res@),
{
    PhoneScanner::new().extract(text)
}

} // verus!
