//! The kinds of phone numbers and the matches reported for them.
use vstd::prelude::*;

verus! {

/// The format in which a phone number was written.
#[derive(Debug, Clone, Copy, PartialEq, Eq, Structural)]
pub enum PhoneType {
    FormattedDomestic,
    FormattedTollFree,
    InternationalPlus,
    Plain10Digit,
    Plain11Digit,
    Mobile10Digit,
    Unknown,
}

/// The name of each phone type.
pub open spec fn phone_type_name(t: PhoneType) -> Seq<char> {
    match t {
        PhoneType::FormattedDomestic => "FORMATTED_DOMESTIC"@,
        PhoneType::FormattedTollFree => "FORMATTED_TOLL_FREE"@,
        PhoneType::InternationalPlus => "INTERNATIONAL_PLUS"@,
        PhoneType::Plain10Digit => "PLAIN_10_DIGIT"@,
        PhoneType::Plain11Digit => "PLAIN_11_DIGIT"@,
        PhoneType::Mobile10Digit => "MOBILE_10_DIGIT"@,
        PhoneType::Unknown => "UNKNOWN"@,
    }
}

impl PhoneType {
    /// The name of this phone type.
    pub fn as_str(&self) -> (r: &'static str)
        ensures
            r@ == phone_type_name(*self),
    {
        match self {
            PhoneType::FormattedDomestic => "FORMATTED_DOMESTIC",
            PhoneType::FormattedTollFree => "FORMATTED_TOLL_FREE",
            PhoneType::InternationalPlus => "INTERNATIONAL_PLUS",
            PhoneType::Plain10Digit => "PLAIN_10_DIGIT",
            PhoneType::Plain11Digit => "PLAIN_11_DIGIT",
            PhoneType::Mobile10Digit => "MOBILE_10_DIGIT",
            PhoneType::Unknown => "UNKNOWN",
        }
    }
}

/// A phone number found in a text.
#[derive(Debug, Clone)]
pub struct PhoneMatch {
    /// The format in which it was written.
    pub phone_type: PhoneType,
    /// The number as written.
    pub value: String,
    /// Its decimal digits.
    pub normalized: String,
    /// The byte offset in the text at which it starts.
    pub position: usize,
}

/// The mathematical content of a `PhoneMatch`.
pub ghost struct PhoneMatchView {
    pub phone_type: PhoneType,
    pub value: Seq<char>,
    pub normalized: Seq<char>,
    pub position: nat,
}

impl View for PhoneMatch {
    type V = PhoneMatchView;

    open spec fn view(&self) -> PhoneMatchView {
        PhoneMatchView {
            phone_type: self.phone_type,
            value: self.value@,
            normalized: self.normalized@,
            position: self.position as nat,
        }
    }
}

/// The views of a sequence of matches.
pub open spec fn views_of(ms: Seq<PhoneMatch>) -> Seq<PhoneMatchView> {
    ms.map_values(|m: PhoneMatch| m@)
}

impl PhoneMatch {
    pub(crate) fn new(phone_type: PhoneType, value: String, normalized: String, position: usize) -> (r: Self)
        ensures
            r.phone_type == phone_type,
            r.value == value,
            r.normalized == normalized,
            r.position == position,
    {
        PhoneMatch { phone_type, value, normalized, position }
    }

    /// A copy of this match.
    pub(crate) fn duplicate(&self) -> (r: Self)
        ensures
            r == *self,
    {
        PhoneMatch {
            phone_type: self.phone_type,
            value: self.value.clone(),
            normalized: self.normalized.clone(),
            position: self.position,
        }
    }
}

} // verus!
