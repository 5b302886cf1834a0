//! Properties of what the scanner reports for a text, stated over
//! `contains_spec` and `extract_spec`.
use vstd::prelude::*;
use crate::digit_bounds::{
    lemma_digits_from_le_all, lemma_intl_digit_count_bound, lemma_paren_digit_count_bound,
    lemma_group_count_bound, lemma_run_end_bound, lemma_read_from_digits,
};
use crate::scan_props::{
    read_from, lemma_raw_matches_read_from, lemma_sort_by_position_members,
    lemma_select_non_overlapping, lemma_phone_value_utf8_len,
};
use crate::scan_spec::{
    contains_spec, extract_spec, raw_matches, sort_by_position, select_non_overlapping, intl_hit,
    paren_hit, group_hit, plain_hit, paren_digit_count, paren_prefix_at, MAX_INPUT_SIZE, MIN_DIGITS,
};
use crate::shift::{
    inert_byte, shifted_all, lemma_raw_matches_shift, lemma_sort_shift, lemma_select_shift,
    lemma_select_from_start,
};
use crate::text::digits_of;
use crate::types::PhoneMatchView;
use crate::validators::accepted_as;

verus! {

/// Every phone number reported for a text is read from the text (it lies in
/// the text, is at most `MAX_PHONE_LENGTH` characters long, is made of phone
/// characters that are the text's bytes at its position, and its normalized
/// form is its digits, of which it has seven to fifteen) and is accepted by
/// the validator of its kind.
pub proof fn law_reported_numbers_are_read_from_text(s: Seq<u8>)
    ensures
        forall|k: int|
            0 <= k < extract_spec(s).len() ==> read_from(s, #[trigger] extract_spec(s)[k]),
        forall|k: int|
            0 <= k < extract_spec(s).len() ==> accepted_as(
                #[trigger] extract_spec(s)[k].phone_type,
                vstd::utf8::encode_utf8(extract_spec(s)[k].value),
            ),
{
    if let Some(raw) = raw_matches(s) {
        lemma_raw_matches_read_from(s, raw);
        lemma_sort_by_position_members(raw);
        lemma_select_non_overlapping(sort_by_position(raw), 0, Set::empty());
        let r = extract_spec(s);
        assert forall|k: int| 0 <= k < r.len() implies read_from(s, #[trigger] r[k]) by {
            if s.len() <= crate::scan_spec::MAX_INPUT_SIZE && s.len() >= crate::scan_spec::MIN_DIGITS {
                assert(r.contains(r[k]));
                assert(raw.contains(r[k]));
            }
        }
    }
}

/// The phone numbers reported for a text are ordered by position, each ends
/// before the next begins, and no two have the same digits.
pub proof fn law_reported_numbers_are_disjoint(s: Seq<u8>)
    ensures
        forall|j: int, k: int|
            #![trigger extract_spec(s)[j], extract_spec(s)[k]]
            0 <= j < k < extract_spec(s).len() ==> extract_spec(s)[j].position + extract_spec(
                s,
            )[j].value.len() <= extract_spec(s)[k].position,
        forall|j: int, k: int|
            #![trigger extract_spec(s)[j], extract_spec(s)[k]]
            0 <= j < k < extract_spec(s).len() ==> extract_spec(s)[j].position < extract_spec(
                s,
            )[k].position,
        forall|j: int, k: int|
            #![trigger extract_spec(s)[j], extract_spec(s)[k]]
            0 <= j < k < extract_spec(s).len() ==> extract_spec(s)[j].normalized != extract_spec(
                s,
            )[k].normalized,
{
    law_reported_numbers_are_read_from_text(s);
    let r = extract_spec(s);
    if let Some(raw) = raw_matches(s) {
        lemma_select_non_overlapping(sort_by_position(raw), 0, Set::empty());
        assert forall|j: int, k: int|
            #![trigger r[j], r[k]]
            0 <= j < k < r.len() implies r[j].position + r[j].value.len() <= r[k].position && r[j].position
                < r[k].position by {
            assert(read_from(s, r[j]));
            lemma_phone_value_utf8_len(r[j].value);
            crate::text::lemma_digit_chars_len(r[j].value);
        }
    }
}

/// A text shorter than `MIN_DIGITS` bytes or longer than `MAX_INPUT_SIZE`
/// bytes holds no phone number: the quick check answers `false` and
/// extraction reports nothing.
pub proof fn law_out_of_range_texts_hold_no_number(s: Seq<u8>)
    requires
        s.len() < MIN_DIGITS || s.len() > MAX_INPUT_SIZE,
    ensures
        !contains_spec(s),
        extract_spec(s).len() == 0,
{
}

/// A text with fewer than `MIN_DIGITS` decimal digits holds no phone number:
/// the quick check answers `false` and extraction reports nothing.
pub proof fn law_texts_with_few_digits_hold_no_number(s: Seq<u8>)
    requires
        digits_of(s).len() < MIN_DIGITS,
    ensures
        !contains_spec(s),
        extract_spec(s).len() == 0,
{
    assert forall|i: int| !intl_hit(s, i) by {
        if intl_hit(s, i) {
            lemma_intl_digit_count_bound(s, i, i + 1, 0);
            lemma_digits_from_le_all(s, i + 1);
        }
    }
    assert forall|i: int| !paren_hit(s, i) by {
        if paren_hit(s, i) {
            lemma_paren_digit_count_bound(s, i + 6, 0);
            lemma_digits_from_le_all(s, i + 6);
        }
    }
    assert forall|i: int| !group_hit(s, i) by {
        if group_hit(s, i) {
            lemma_group_count_bound(s, i, i, 0, 0, false);
            lemma_digits_from_le_all(s, i);
        }
    }
    assert forall|i: int| !plain_hit(s, i) by {
        if plain_hit(s, i) {
            lemma_run_end_bound(s, i);
            lemma_digits_from_le_all(s, i);
        }
    }
    if extract_spec(s).len() > 0 {
        law_reported_numbers_are_read_from_text(s);
        lemma_read_from_digits(s, extract_spec(s)[0]);
    }
}

/// Putting in front of a text a byte that can neither start a number nor
/// belong to one (not a digit, `+` or `(`) moves every reported number one
/// position further on and changes nothing else, for texts of `MIN_DIGITS`
/// bytes up to one byte short of `MAX_INPUT_SIZE`.
pub proof fn law_prefix_byte_shifts_numbers(b: u8, t: Seq<u8>)
    requires
        inert_byte(b),
        MIN_DIGITS <= t.len() < MAX_INPUT_SIZE,
    ensures
        extract_spec(seq![b] + t) == shifted_all(extract_spec(t)),
{
    lemma_raw_matches_shift(b, t);
    if let Some(r) = raw_matches(t) {
        lemma_sort_shift(r);
        lemma_select_shift(sort_by_position(r), -1, Set::empty());
        lemma_select_from_start(sort_by_position(r), -1, Set::empty());
    } else {
        assert(shifted_all(Seq::<PhoneMatchView>::empty()) =~= Seq::<PhoneMatchView>::empty());
    }
}

/// A text holds a phone number wherever it has `(ddd)`, a space or `-`, three
/// digits, a `-`, `.` or space, and four digits, and the first digit of the
/// area code is not `0` (an area code starting with `1` counts).
pub proof fn law_parenthesized_number_is_detected(s: Seq<u8>, i: int)
    requires
        MIN_DIGITS <= s.len() <= MAX_INPUT_SIZE,
        0 <= i,
        i + 14 <= s.len(),
        s[i] == 40,
        s[i + 4] == 41,
        s[i + 5] == 32 || s[i + 5] == 45,
        s[i + 9] == 45 || s[i + 9] == 46 || s[i + 9] == 32,
        forall|k: int|
            (i + 1 <= k <= i + 3 || i + 6 <= k <= i + 8 || i + 10 <= k <= i + 13) ==> 48
                <= #[trigger] s[k] <= 57,
        s[i + 1] != 48,
    ensures
        contains_spec(s),
{
    assert(48 <= s[i + 1] <= 57 && 48 <= s[i + 2] <= 57 && 48 <= s[i + 3] <= 57);
    assert(paren_prefix_at(s, i));
    assert(48 <= s[i + 13] <= 57 && 48 <= s[i + 12] <= 57 && 48 <= s[i + 11] <= 57 && 48
        <= s[i + 10] <= 57);
    assert(paren_digit_count(s, i + 14, 7) == 7);
    assert(paren_digit_count(s, i + 13, 6) == 7);
    assert(paren_digit_count(s, i + 12, 5) == 7);
    assert(paren_digit_count(s, i + 11, 4) == 7);
    assert(paren_digit_count(s, i + 10, 3) == 7);
    assert(paren_digit_count(s, i + 9, 3) == 7);
    assert(48 <= s[i + 8] <= 57 && 48 <= s[i + 7] <= 57 && 48 <= s[i + 6] <= 57);
    assert(paren_digit_count(s, i + 8, 2) == 7);
    assert(paren_digit_count(s, i + 7, 1) == 7);
    assert(paren_digit_count(s, i + 6, 0) == 7);
    assert(paren_hit(s, i));
}

} // verus!
