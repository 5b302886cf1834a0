//! The numbering rules that the validators apply, stated over the decimal
//! digits of the text they are given.
use vstd::prelude::*;
use crate::text::{digits_of, lemma_digits_of_len, lemma_digits_of_all_digits, all_digits};
use crate::validators::{
    FormattedDomesticValidator, MobileValidator, PhoneValidator, PlainDigitValidator,
};

verus! {

/// A formatted domestic number has ten digits; its area code (first digit)
/// does not start with `0` and its exchange code (fourth digit) starts with
/// `2` to `9`. In particular a ten-digit text whose fourth digit is `0` or `1`
/// is rejected, and a text of any other number of digits is rejected.
pub proof fn law_formatted_domestic_rule(text: Seq<u8>)
    ensures
        FormattedDomesticValidator.accepts(text) <==> {
            let d = digits_of(text);
            &&& d.len() == 10
            &&& d[0] != 48
            &&& 50 <= d[3] <= 57
        },
{
    lemma_digits_of_len(text);
}

/// A plain validator of ten digits follows the formatted domestic rule; one of
/// eleven digits accepts `1` followed by a digit other than `0` and nine more
/// digits; one of any other length accepts nothing. Texts with another number
/// of digits than the validator's length are rejected.
pub proof fn law_plain_digit_rule(v: PlainDigitValidator, text: Seq<u8>)
    ensures
        v.accepts(text) <==> {
            let d = digits_of(text);
            &&& d.len() == v.expected_len()
            &&& (v.expected_len() == 10 ==> d[0] != 48 && 50 <= d[3] <= 57)
            &&& (v.expected_len() == 11 ==> d[0] == 49 && d[1] != 48)
            &&& (v.expected_len() == 10 || v.expected_len() == 11)
        },
{
    lemma_digits_of_len(text);
}

/// A plain validator of ten digits accepts exactly the texts that the
/// formatted domestic validator accepts.
pub proof fn law_plain_ten_agrees_with_formatted(v: PlainDigitValidator, text: Seq<u8>)
    requires
        v.expected_len() == 10,
    ensures
        v.accepts(text) == FormattedDomesticValidator.accepts(text),
{
    law_plain_digit_rule(v, text);
    law_formatted_domestic_rule(text);
}

/// A mobile number is ten digits, the first of them `1` to `9`, or the same
/// ten digits after the country code `91`; no other text is accepted.
pub proof fn law_mobile_rule(text: Seq<u8>)
    ensures
        MobileValidator.accepts(text) <==> {
            let d = digits_of(text);
            ||| d.len() == 10 && d[0] != 48
            ||| d.len() == 12 && d[0] == 57 && d[1] == 49 && d[2] != 48
        },
{
    lemma_digits_of_len(text);
}

/// Putting the country code `91` in front of ten digits changes nothing:
/// the twelve digits are accepted exactly when the ten are, that is when
/// the first of them is not `0`.
pub proof fn law_mobile_country_code(d: Seq<u8>)
    requires
        d.len() == 10,
        forall|k: int| 0 <= k < d.len() ==> 48 <= #[trigger] d[k] <= 57,
    ensures
        MobileValidator.accepts(seq![57u8, 49u8] + d) == MobileValidator.accepts(d),
        MobileValidator.accepts(d) <==> d[0] != 48,
{
    let c = seq![57u8, 49u8] + d;
    assert(all_digits(d));
    assert(all_digits(c)) by {
        assert forall|k: int| 0 <= k < c.len() implies crate::classifier::is_digit_byte(
            #[trigger] c[k],
        ) by {
            if k >= 2 {
                assert(c[k] == d[k - 2]);
            }
        }
    }
    lemma_digits_of_all_digits(d);
    lemma_digits_of_all_digits(c);
    assert(c[2] == d[0]);
}

} // verus!
