//! Detection and extraction of phone numbers in free text.
//!
//! `PhoneScanner` finds whether a text holds a phone number (`contains`) and
//! extracts the numbers it holds (`extract`): international numbers written
//! with `+`, formatted domestic and toll-free numbers, plain runs of ten or
//! eleven digits and space-separated mobile numbers. The validators decide
//! whether a whole string is a number of one kind. What each function computes
//! is stated over the text's bytes in `scan_spec`; `scan_props`,
//! `digit_bounds`, `shift`, `single_number` and `laws` prove what the
//! reported numbers have in common; `validator_laws` states the numbering
//! rules the validators apply.
pub mod classifier;
pub mod counters;
pub mod digit_bounds;
pub mod laws;
pub mod limiter;
pub mod safe_arithmetic;
pub mod scan_props;
pub mod scan_spec;
pub mod scanner;
pub mod service;
pub mod shift;
pub mod single_number;
pub mod text;
pub mod types;
pub mod validator_laws;
pub mod validators;

pub use classifier::CharacterClassifier;
pub use counters::{StatsSnapshot, ThreadSafeErrorCounter, ValidationStats};
pub use limiter::{BatchState, OperationLimiter};
pub use scanner::PhoneScanner;
pub use service::{extract_phones, text_contains_phone, PhoneDetectorFactory, PhoneScannerService};
pub use types::{PhoneMatch, PhoneType};
pub use validators::{
    FormattedDomesticValidator, InternationalValidator, MobileValidator, PhoneValidator,
    PlainDigitValidator,
};
