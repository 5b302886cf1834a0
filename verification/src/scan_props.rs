//! Properties of what the scanner finds: every reported number is read from
//! the text, is made of phone characters, and its digits are its normalized
//! form; the reported numbers do not overlap and have distinct digits.
use vstd::prelude::*;
use crate::classifier::{is_digit_byte, is_separator_byte};
use crate::validators::accepted_as;
use crate::text::{lemma_ascii_chars_encode, chars_of, digits_of, digit_chars, lemma_digit_chars_of, lemma_digits_of_all_digits, all_digits};
use crate::types::{PhoneType, PhoneMatch, PhoneMatchView, views_of};
use crate::scan_spec::{
    MAX_INPUT_SIZE, MAX_PHONE_LENGTH, MIN_DIGITS, MAX_DIGITS, intl_extent, paren_extent, dash_extent,
    run_end, lemma_intl_extent_bounds, lemma_paren_extent_bounds, lemma_dash_extent_bounds,
    lemma_run_end_bounds, lemma_dash_first_step, lemma_paren_value_digits, intl_match_at,
    paren_match_at, dash_match_at, dash_kind, plain_kind, match_view, paren_value, paren_prefix_at,
    prepend, intl_phase, formatted_phase, plain_phase, raw_matches, run_starts_at,
    insert_by_position, sort_by_position, select_non_overlapping, extract_spec,
};
use vstd::utf8::{encode_utf8, is_ascii_chars, is_ascii_chars_encode_utf8};

verus! {

/// A character that may appear in a reported number: a decimal digit, a
/// separator (tab, line feed, carriage return, space, `-`, `.`), a parenthesis
/// or `+`.
pub open spec fn is_phone_value_char(c: char) -> bool {
    ('0' <= c <= '9') || c == '\t' || c == '\n' || c == '\r' || c == ' ' || c == '-' || c == '.'
        || c == '(' || c == ')' || c == '+'
}

/// A byte that the walks may take into a reported number.
pub open spec fn is_phone_value_byte(b: u8) -> bool {
    is_digit_byte(b) || is_separator_byte(b) || b == 40 || b == 41 || b == 43
}

/// `m` is a number read from text `s`: it lies within the text and is at
/// most `MAX_PHONE_LENGTH` characters long, each of its characters is the
/// text's byte at that offset (except that the byte after `)` in
/// `(ddd)-ddd-dddd` is reported as a space), it is made of phone characters,
/// its normalized form is its digits, of which it has between `MIN_DIGITS`
/// and `MAX_DIGITS`, and the validator of its kind accepts it.
pub open spec fn read_from(s: Seq<u8>, m: PhoneMatchView) -> bool {
    let n = m.value.len();
    &&& m.position + n <= s.len()
    &&& n <= MAX_PHONE_LENGTH
    &&& forall|k: int| 0 <= k < n ==> is_phone_value_char(#[trigger] m.value[k])
    &&& forall|k: int|
        0 <= k < n ==> #[trigger] m.value[k] == (s[m.position + k] as char) || (k == 5 && m.value[k]
            == ' ' && s[m.position + k] == 45)
    &&& m.normalized == digit_chars(m.value)
    &&& MIN_DIGITS <= m.normalized.len() <= MAX_DIGITS
    &&& m.phone_type != PhoneType::Unknown
    &&& accepted_as(m.phone_type, encode_utf8(m.value))
}

/// The bytes the international walk takes are phone bytes.
pub proof fn lemma_intl_extent_bytes(s: Seq<u8>, start: int, i: int, dc: nat)
    requires
        0 <= i <= s.len(),
    ensures
        forall|k: int|
            i <= k < intl_extent(s, start, i, dc) ==> is_phone_value_byte(#[trigger] s[k]),
    decreases s.len() - i,
{
    if 0 <= i < s.len() && i - start < MAX_PHONE_LENGTH {
        lemma_intl_extent_bytes(s, start, i + 1, dc + 1);
        lemma_intl_extent_bytes(s, start, i + 1, dc);
    }
}

/// The bytes taken after `(ddd)` are digits or separators.
pub proof fn lemma_paren_extent_bytes(s: Seq<u8>, i: int, end: int, dc: nat)
    requires
        0 <= end <= s.len(),
    ensures
        forall|k: int|
            end <= k < paren_extent(s, i, end, dc) ==> is_digit_byte(#[trigger] s[k])
                || is_separator_byte(s[k]),
    decreases s.len() - end,
{
    if 0 <= end < s.len() && dc < 7 && end - i < MAX_PHONE_LENGTH {
        lemma_paren_extent_bytes(s, i, end + 1, dc + 1);
        lemma_paren_extent_bytes(s, i, end + 1, dc);
    }
}

/// The bytes the walk over digit groups takes are digits or separators.
pub proof fn lemma_dash_extent_bytes(s: Seq<u8>, start: int, i: int, dc: nat, sep: u8, has: bool)
    requires
        0 <= i <= s.len(),
    ensures
        forall|k: int|
            i <= k < dash_extent(s, start, i, dc, sep, has).0 ==> is_digit_byte(#[trigger] s[k])
                || is_separator_byte(s[k]),
    decreases s.len() - i,
{
    if 0 <= i < s.len() && i - start < MAX_PHONE_LENGTH {
        let c = s[i];
        let sep1: u8 = if sep == 0 {
            c
        } else {
            sep
        };
        let sep2: u8 = if sep1 != 32 && c == 32 {
            sep1
        } else {
            c
        };
        lemma_dash_extent_bytes(s, start, i + 1, dc + 1, sep, has);
        lemma_dash_extent_bytes(s, start, i + 1, dc, sep2, true);
    }
}

/// A number whose text is the bytes `s[i..end]`, all of them phone bytes, and
/// which has between `MIN_DIGITS` and `MAX_DIGITS` digits, is read from `s`.
proof fn lemma_plain_bytes_read_from(s: Seq<u8>, kind: PhoneType, i: int, end: int)
    requires
        0 <= i <= end <= s.len(),
        end - i <= MAX_PHONE_LENGTH,
        forall|k: int| i <= k < end ==> is_phone_value_byte(#[trigger] s[k]),
        MIN_DIGITS <= digits_of(s.subrange(i, end)).len() <= MAX_DIGITS,
        kind != PhoneType::Unknown,
        accepted_as(kind, s.subrange(i, end)),
    ensures
        read_from(s, match_view(kind, s.subrange(i, end), i)),
{
    let v = s.subrange(i, end);
    let m = match_view(kind, v, i);
    lemma_digit_chars_of(v);
    assert forall|k: int| 0 <= k < v.len() implies #[trigger] v[k] < 128 by {
        assert(is_phone_value_byte(s[i + k]));
    }
    lemma_ascii_chars_encode(v);
    assert forall|k: int| 0 <= k < m.value.len() implies is_phone_value_char(#[trigger] m.value[k]) by {
        assert(is_phone_value_byte(s[i + k]));
    }
}

/// The international number found at `i`, if any, is read from `s`.
pub proof fn lemma_intl_match_read_from(s: Seq<u8>, i: int)
    ensures
        intl_match_at(s, i) matches Some((m, end)) ==> read_from(s, m) && m.position == i && i < end
            <= s.len() && end == i + m.value.len(),
{
    if let Some((m, end)) = intl_match_at(s, i) {
        lemma_intl_extent_bounds(s, i, i + 1, 0);
        lemma_intl_extent_bytes(s, i, i + 1, 0);
        assert forall|k: int| i <= k < end implies is_phone_value_byte(#[trigger] s[k]) by {
            if k == i {
            }
        }
        lemma_plain_bytes_read_from(s, PhoneType::InternationalPlus, i, end);
    }
}

/// The `(ddd)` number found at `i`, if any, is read from `s`.
pub proof fn lemma_paren_match_read_from(s: Seq<u8>, i: int)
    ensures
        paren_match_at(s, i) matches Some((m, end)) ==> read_from(s, m) && m.position == i && i < end
            <= s.len() && end == i + m.value.len(),
{
    if let Some((m, end)) = paren_match_at(s, i) {
        lemma_paren_extent_bounds(s, i, i + 6, 0);
        lemma_paren_extent_bytes(s, i, i + 6, 0);
        lemma_paren_value_digits(s, i, end);
        let v = paren_value(s, i, end);
        lemma_digit_chars_of(v);
        assert(v.len() == end - i);
        assert forall|k: int| 0 <= k < v.len() implies is_phone_value_byte(#[trigger] v[k]) by {
            if k >= 6 {
                assert(v[k] == s[i + k]);
            }
        }
        assert forall|k: int| 0 <= k < m.value.len() implies is_phone_value_char(#[trigger] m.value[k]) by {
            assert(is_phone_value_byte(v[k]));
        }
        assert forall|k: int| 0 <= k < v.len() implies #[trigger] v[k] < 128 by {
            assert(is_phone_value_byte(v[k]));
        }
        lemma_ascii_chars_encode(v);
        assert forall|k: int| 0 <= k < m.value.len() implies #[trigger] m.value[k] == (s[m.position + k] as char) || (k == 5 && m.value[k]
            == ' ' && s[m.position + k] == 45) by {
            if k != 5 {
                assert(v[k] == s[i + k]);
            }
        }
    }
}

/// The number of separated digit groups found at `i`, if any, is read from `s`.
pub proof fn lemma_dash_match_read_from(s: Seq<u8>, i: int)
    ensures
        dash_match_at(s, i) matches Some((m, end)) ==> read_from(s, m) && m.position == i && i < end
            <= s.len() && end == i + m.value.len(),
{
    if let Some((m, end)) = dash_match_at(s, i) {
        lemma_dash_first_step(s, i);
        lemma_dash_extent_bounds(s, i, i, 0, 0, false);
        lemma_dash_extent_bytes(s, i, i, 0, 0, false);
        let (e, sep, has) = dash_extent(s, i, i, 0, 0, false);
        assert(e == end);
        lemma_plain_bytes_read_from(s, m.phone_type, i, end);
    }
}

/// The run of digits at `i`, when it makes a plain number, is read from `s`.
pub proof fn lemma_plain_match_read_from(s: Seq<u8>, i: int)
    requires
        run_starts_at(s, i),
        plain_kind(s.subrange(i, run_end(s, i))) is Some,
    ensures
        ({
            let end = run_end(s, i);
            let m = match_view(plain_kind(s.subrange(i, end)).unwrap(), s.subrange(i, end), i);
            read_from(s, m) && i < end <= s.len() && end == i + m.value.len()
        }),
{
    let end = run_end(s, i);
    lemma_run_end_bounds(s, i);
    let v = s.subrange(i, end);
    assert(all_digits(v));
    lemma_digits_of_all_digits(v);
    lemma_plain_bytes_read_from(s, plain_kind(v).unwrap(), i, end);
}

/// Every international number found from `i` on is read from `s`.
pub proof fn lemma_intl_phase_read_from(s: Seq<u8>, i: int, n: nat)
    ensures
        intl_phase(s, i, n) matches Some(r) ==> forall|k: int|
            0 <= k < r.len() ==> read_from(s, #[trigger] r[k]),
    decreases s.len() - i,
{
    if 0 <= i < s.len() && n < crate::scan_spec::MAX_PHONES_EXTRACT {
        lemma_intl_match_read_from(s, i);
        match intl_match_at(s, i) {
            Some((m, end)) => {
                lemma_intl_phase_read_from(s, end, n + 1);
                if let Some(rest) = intl_phase(s, end, n + 1) {
                    let r = seq![m] + rest;
                    assert forall|k: int| 0 <= k < r.len() implies read_from(s, #[trigger] r[k]) by {
                        if k > 0 {
                            assert(r[k] == rest[k - 1]);
                        }
                    }
                }
            },
            None => {
                lemma_intl_phase_read_from(s, i + 1, n);
            },
        }
    }
}

/// Every formatted number found from `i` on is read from `s`.
pub proof fn lemma_formatted_phase_read_from(s: Seq<u8>, i: int, n: nat)
    ensures
        formatted_phase(s, i, n) matches Some(r) ==> forall|k: int|
            0 <= k < r.len() ==> read_from(s, #[trigger] r[k]),
    decreases s.len() - i,
{
    if 0 <= i < s.len() && n < crate::scan_spec::MAX_PHONES_EXTRACT {
        lemma_paren_match_read_from(s, i);
        lemma_dash_match_read_from(s, i);
        match paren_match_at(s, i) {
            Some((m, end)) => {
                lemma_formatted_phase_read_from(s, end, n + 1);
                if let Some(rest) = formatted_phase(s, end, n + 1) {
                    let r = seq![m] + rest;
                    assert forall|k: int| 0 <= k < r.len() implies read_from(s, #[trigger] r[k]) by {
                        if k > 0 {
                            assert(r[k] == rest[k - 1]);
                        }
                    }
                }
            },
            None => match dash_match_at(s, i) {
                Some((m, end)) => {
                    lemma_formatted_phase_read_from(s, end, n + 1);
                    if let Some(rest) = formatted_phase(s, end, n + 1) {
                        let r = seq![m] + rest;
                        assert forall|k: int| 0 <= k < r.len() implies read_from(s, #[trigger] r[k]) by {
                            if k > 0 {
                                assert(r[k] == rest[k - 1]);
                            }
                        }
                    }
                },
                None => {
                    lemma_formatted_phase_read_from(s, i + 1, n);
                },
            },
        }
    }
}

/// Every plain number found from `i` on is read from `s`.
pub proof fn lemma_plain_phase_read_from(s: Seq<u8>, i: int, n: nat)
    ensures
        plain_phase(s, i, n) matches Some(r) ==> forall|k: int|
            0 <= k < r.len() ==> read_from(s, #[trigger] r[k]),
    decreases s.len() - i,
{
    if 0 <= i < s.len() && n < crate::scan_spec::MAX_PHONES_EXTRACT {
        if !run_starts_at(s, i) {
            lemma_plain_phase_read_from(s, i + 1, n);
        } else {
            let end = run_end(s, i);
            lemma_run_end_bounds(s, i + 1);
            match plain_kind(s.subrange(i, end)) {
                Some(kind) => {
                    lemma_plain_match_read_from(s, i);
                    lemma_plain_phase_read_from(s, end, n + 1);
                    let m = match_view(kind, s.subrange(i, end), i);
                    if let Some(rest) = plain_phase(s, end, n + 1) {
                        let r = seq![m] + rest;
                        assert forall|k: int| 0 <= k < r.len() implies read_from(s, #[trigger] r[k]) by {
                            if k > 0 {
                                assert(r[k] == rest[k - 1]);
                            }
                        }
                    }
                },
                None => {
                    lemma_plain_phase_read_from(s, end, n);
                },
            }
        }
    }
}

/// Every number found by the three walks is read from `s`.
pub proof fn lemma_raw_matches_read_from(s: Seq<u8>, r: Seq<PhoneMatchView>)
    requires
        raw_matches(s) == Some(r),
    ensures
        forall|k: int| 0 <= k < r.len() ==> read_from(s, #[trigger] r[k]),
{
    lemma_intl_phase_read_from(s, 0, 0);
    let a = intl_phase(s, 0, 0).unwrap();
    lemma_formatted_phase_read_from(s, 0, a.len());
    let b = formatted_phase(s, 0, a.len()).unwrap();
    lemma_plain_phase_read_from(s, 0, a.len() + b.len());
    let c = plain_phase(s, 0, a.len() + b.len()).unwrap();
    assert(r == a + b + c);
    assert forall|k: int| 0 <= k < r.len() implies read_from(s, #[trigger] r[k]) by {
        if k < a.len() {
            assert(r[k] == a[k]);
        } else if k < a.len() + b.len() {
            assert(r[k] == b[k - a.len()]);
        } else {
            assert(r[k] == c[k - a.len() - b.len()]);
        }
    }
}

/// The UTF-8 encoding of a text made of phone characters has one byte per
/// character.
pub proof fn lemma_phone_value_utf8_len(v: Seq<char>)
    requires
        forall|k: int| 0 <= k < v.len() ==> is_phone_value_char(#[trigger] v[k]),
    ensures
        encode_utf8(v).len() == v.len(),
{
    assert(is_ascii_chars(v));
    is_ascii_chars_encode_utf8(v);
}

/// Inserting by position adds `m` and keeps every element.
pub proof fn lemma_insert_by_position_members(sorted: Seq<PhoneMatchView>, m: PhoneMatchView)
    ensures
        forall|x: PhoneMatchView|
            insert_by_position(sorted, m).contains(x) ==> x == m || sorted.contains(x),
    decreases sorted.len(),
{
    if sorted.len() > 0 && m.position > sorted[0].position {
        let rest = sorted.drop_first();
        lemma_insert_by_position_members(rest, m);
        let r = insert_by_position(sorted, m);
        assert forall|x: PhoneMatchView| r.contains(x) implies x == m || sorted.contains(x) by {
            let k = choose|k: int| 0 <= k < r.len() && r[k] == x;
            if k == 0 {
                assert(sorted[0] == x);
            } else {
                assert(insert_by_position(rest, m)[k - 1] == x);
                assert(insert_by_position(rest, m).contains(x));
                if x != m {
                    assert(rest.contains(x));
                    let j = choose|j: int| 0 <= j < rest.len() && rest[j] == x;
                    assert(sorted[j + 1] == x);
                }
            }
        }
    } else if sorted.len() > 0 {
        let r = insert_by_position(sorted, m);
        assert forall|x: PhoneMatchView| r.contains(x) implies x == m || sorted.contains(x) by {
            let k = choose|k: int| 0 <= k < r.len() && r[k] == x;
            if k > 0 {
                assert(sorted[k - 1] == x);
            }
        }
    }
}

/// Ordering by position keeps only elements of the sequence.
pub proof fn lemma_sort_by_position_members(s: Seq<PhoneMatchView>)
    ensures
        forall|x: PhoneMatchView| sort_by_position(s).contains(x) ==> s.contains(x),
    decreases s.len(),
{
    if s.len() > 0 {
        let rest = s.drop_first();
        lemma_sort_by_position_members(rest);
        lemma_insert_by_position_members(sort_by_position(rest), s[0]);
        assert forall|x: PhoneMatchView| sort_by_position(s).contains(x) implies s.contains(x) by {
            if x != s[0] {
                assert(rest.contains(x));
                let j = choose|j: int| 0 <= j < rest.len() && rest[j] == x;
                assert(s[j + 1] == x);
            } else {
                assert(s[0] == x);
            }
        }
    }
}

/// The kept matches are elements of the sequence; each starts at or after
/// `last_end` and at or after the end of every kept match before it; their
/// digits are not in `seen` and differ from each other.
pub proof fn lemma_select_non_overlapping(
    s: Seq<PhoneMatchView>,
    last_end: int,
    seen: Set<Seq<char>>,
)
    ensures
        ({
            let r = select_non_overlapping(s, last_end, seen);
            &&& forall|x: PhoneMatchView| r.contains(x) ==> s.contains(x)
            &&& forall|k: int| 0 <= k < r.len() ==> last_end <= #[trigger] r[k].position
            &&& forall|j: int, k: int|
                #![trigger r[j], r[k]]
                0 <= j < k < r.len() ==> r[j].position + encode_utf8(r[j].value).len()
                    <= r[k].position
            &&& forall|k: int| 0 <= k < r.len() ==> !seen.contains(#[trigger] r[k].normalized)
            &&& forall|j: int, k: int|
                #![trigger r[j], r[k]]
                0 <= j < k < r.len() ==> r[j].normalized != r[k].normalized
        }),
    decreases s.len(),
{
    if s.len() > 0 {
        let m = s[0];
        let rest = s.drop_first();
        if m.position >= last_end && !seen.contains(m.normalized) {
            let e = (m.position + encode_utf8(m.value).len()) as int;
            let seen2 = seen.insert(m.normalized);
            lemma_select_non_overlapping(rest, e, seen2);
            let r2 = select_non_overlapping(rest, e, seen2);
            let r = seq![m] + r2;
            assert(r == select_non_overlapping(s, last_end, seen));
            assert forall|x: PhoneMatchView| r.contains(x) implies s.contains(x) by {
                let k = choose|k: int| 0 <= k < r.len() && r[k] == x;
                if k == 0 {
                    assert(s[0] == x);
                } else {
                    assert(r2[k - 1] == x);
                    assert(rest.contains(x));
                    let j = choose|j: int| 0 <= j < rest.len() && rest[j] == x;
                    assert(s[j + 1] == x);
                }
            }
            assert forall|k: int| 0 <= k < r.len() implies last_end <= #[trigger] r[k].position by {
                if k > 0 {
                    assert(r[k] == r2[k - 1]);
                }
            }
            assert forall|j: int, k: int|
                #![trigger r[j], r[k]]
                0 <= j < k < r.len() implies r[j].position + encode_utf8(
                r[j].value,
            ).len() <= r[k].position by {
                assert(r[k] == r2[k - 1]);
                if j > 0 {
                    assert(r[j] == r2[j - 1]);
                }
            }
            assert forall|k: int| 0 <= k < r.len() implies !seen.contains(#[trigger] r[k].normalized) by {
                if k > 0 {
                    assert(r[k] == r2[k - 1]);
                    assert(!seen2.contains(r2[k - 1].normalized));
                }
            }
            assert forall|j: int, k: int|
                #![trigger r[j], r[k]]
                0 <= j < k < r.len() implies r[j].normalized != r[k].normalized by {
                assert(r[k] == r2[k - 1]);
                assert(!seen2.contains(r2[k - 1].normalized));
                if j > 0 {
                    assert(r[j] == r2[j - 1]);
                }
            }
        } else {
            lemma_select_non_overlapping(rest, last_end, seen);
            let r = select_non_overlapping(rest, last_end, seen);
            assert forall|x: PhoneMatchView| r.contains(x) implies s.contains(x) by {
                let j = choose|j: int| 0 <= j < rest.len() && rest[j] == x;
                assert(s[j + 1] == x);
            }
        }
    }
}

/// `res` is a result of extracting the phone numbers of text `s`: it is
/// `extract_spec(s)`, or empty (when the memory budget was exceeded); every
/// number in it is read from `s`; the numbers are ordered by position, each
/// ends before the next starts, and no two have the same digits.
pub open spec fn extraction_of(s: Seq<u8>, res: Seq<PhoneMatch>) -> bool {
    &&& (views_of(res) == extract_spec(s) || res.len() == 0)
    &&& forall|k: int| 0 <= k < res.len() ==> read_from(s, #[trigger] res[k]@)
    &&& forall|j: int, k: int|
        #![trigger res[j], res[k]]
        0 <= j < k < res.len() ==> res[j].position + res[j].value@.len() <= res[k].position
    &&& forall|j: int, k: int|
        #![trigger res[j], res[k]]
        0 <= j < k < res.len() ==> res[j].position < res[k].position
    &&& forall|j: int, k: int|
        #![trigger res[j], res[k]]
        0 <= j < k < res.len() ==> res[j].normalized@ != res[k].normalized@
}

} // verus!
