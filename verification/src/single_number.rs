//! A text that is one formatted `(ddd) ddd-dddd` number and nothing else is
//! reported as exactly that number.
use vstd::prelude::*;
use crate::classifier::is_digit_byte;
use crate::scan_spec::{
    MAX_PHONES_EXTRACT, extract_spec, raw_matches, intl_phase, intl_match_at, formatted_phase,
    plain_phase, paren_match_at, paren_extent, paren_prefix_at, run_end, run_starts_at, plain_kind,
    sort_by_position, insert_by_position, select_non_overlapping, lemma_run_end_bounds,
    lemma_paren_value_digits,
};
use crate::text::{chars_of, digits_of, lemma_digits_of_concat, lemma_digits_of_all_digits, all_digits};
use crate::types::{PhoneType, PhoneMatchView};

verus! {

/// Where no byte is `+`, no international number is found.
proof fn lemma_intl_phase_without_plus(s: Seq<u8>, i: int, n: nat)
    requires
        0 <= i,
        n < MAX_PHONES_EXTRACT,
        forall|k: int| 0 <= k < s.len() ==> #[trigger] s[k] != 43,
    ensures
        intl_phase(s, i, n) == Some(Seq::<PhoneMatchView>::empty()),
    decreases s.len() - i,
{
    if i < s.len() {
        assert(intl_match_at(s, i) is None);
        lemma_intl_phase_without_plus(s, i + 1, n);
    }
}

/// A run of digits stops at the first byte that is not a digit.
proof fn lemma_run_end_stops(s: Seq<u8>, i: int, j: int)
    requires
        0 <= i <= j < s.len(),
        !is_digit_byte(s[j]),
    ensures
        run_end(s, i) <= j,
    decreases j - i,
{
    if i < j && is_digit_byte(s[i]) {
        lemma_run_end_stops(s, i + 1, j);
    }
}

/// Where every run of digits is shorter than ten digits, no plain number is
/// found.
proof fn lemma_plain_phase_short_runs(s: Seq<u8>, i: int, n: nat)
    requires
        0 <= i,
        n < MAX_PHONES_EXTRACT,
        forall|k: int| #[trigger] run_starts_at(s, k) ==> run_end(s, k) - k < 10,
    ensures
        plain_phase(s, i, n) == Some(Seq::<PhoneMatchView>::empty()),
    decreases s.len() - i,
{
    if i < s.len() {
        if !run_starts_at(s, i) {
            lemma_plain_phase_short_runs(s, i + 1, n);
        } else {
            lemma_run_end_bounds(s, i + 1);
            lemma_run_end_bounds(s, i);
            let end = run_end(s, i);
            assert(plain_kind(s.subrange(i, end)) is None);
            lemma_plain_phase_short_runs(s, end, n);
        }
    }
}

/// A text of fourteen bytes `(ddd)`, a space or `-`, three digits, a `-`, `.`
/// or space and four digits, whose area code does not start with `0` and whose
/// exchange code starts with `2` to `9`, is reported as exactly one formatted
/// domestic number: the whole text at position 0, with the byte after `)`
/// written as a space, and its ten digits as normalized form.
pub proof fn law_one_formatted_number_is_reported(s: Seq<u8>)
    requires
        s.len() == 14,
        s[0] == 40,
        s[4] == 41,
        s[5] == 32 || s[5] == 45,
        s[9] == 45 || s[9] == 46 || s[9] == 32,
        forall|k: int|
            (1 <= k <= 3 || 6 <= k <= 8 || 10 <= k <= 13) ==> 48 <= #[trigger] s[k] <= 57,
        s[1] != 48,
        s[6] >= 50,
    ensures
        extract_spec(s) == seq![
            PhoneMatchView {
                phone_type: PhoneType::FormattedDomestic,
                value: chars_of(s.update(5, 32)),
                normalized: chars_of(
                    seq![s[1], s[2], s[3], s[6], s[7], s[8], s[10], s[11], s[12], s[13]],
                ),
                position: 0,
            },
        ],
{
    let d = seq![s[1], s[2], s[3], s[6], s[7], s[8], s[10], s[11], s[12], s[13]];
    // no international number
    assert forall|k: int| 0 <= k < s.len() implies #[trigger] s[k] != 43 by {
        if 1 <= k <= 3 || 6 <= k <= 8 || 10 <= k <= 13 {
            assert(48 <= s[k] <= 57);
        }
    }
    lemma_intl_phase_without_plus(s, 0, 0);
    // the digits of the text
    assert(digits_of(s) == d) by {
        let p0 = s.subrange(0, 1);
        let p1 = s.subrange(1, 4);
        let p2 = s.subrange(4, 6);
        let p3 = s.subrange(6, 9);
        let p4 = s.subrange(9, 10);
        let p5 = s.subrange(10, 14);
        assert(s =~= p0 + p1 + p2 + p3 + p4 + p5);
        assert(all_digits(p1)) by {
            assert forall|k: int| 0 <= k < p1.len() implies is_digit_byte(#[trigger] p1[k]) by {
                assert(p1[k] == s[k + 1]);
            }
        }
        assert(all_digits(p3)) by {
            assert forall|k: int| 0 <= k < p3.len() implies is_digit_byte(#[trigger] p3[k]) by {
                assert(p3[k] == s[k + 6]);
            }
        }
        assert(all_digits(p5)) by {
            assert forall|k: int| 0 <= k < p5.len() implies is_digit_byte(#[trigger] p5[k]) by {
                assert(p5[k] == s[k + 10]);
            }
        }
        lemma_digits_of_all_digits(p1);
        lemma_digits_of_all_digits(p3);
        lemma_digits_of_all_digits(p5);
        assert(p0.len() == 1 && p0.last() == s[0]);
        assert(p0.drop_last() =~= Seq::<u8>::empty());
        assert(digits_of(p0.drop_last()).len() == 0);
        assert(digits_of(p0) =~= Seq::<u8>::empty());
        assert(p2.drop_last().drop_last() =~= Seq::<u8>::empty());
        assert(p2.drop_last()[0] == s[4]);
        assert(digits_of(p2.drop_last()) =~= Seq::<u8>::empty());
        assert(digits_of(p2) =~= Seq::<u8>::empty());
        assert(p4.len() == 1 && p4.last() == s[9]);
        assert(p4.drop_last() =~= Seq::<u8>::empty());
        assert(digits_of(p4.drop_last()).len() == 0);
        assert(digits_of(p4) =~= Seq::<u8>::empty());
        lemma_digits_of_concat(p0, p1);
        lemma_digits_of_concat(p0 + p1, p2);
        lemma_digits_of_concat(p0 + p1 + p2, p3);
        lemma_digits_of_concat(p0 + p1 + p2 + p3, p4);
        lemma_digits_of_concat(p0 + p1 + p2 + p3 + p4, p5);
        assert(p1 + p3 + p5 =~= d);
        assert(Seq::<u8>::empty() + p1 + Seq::<u8>::empty() + p3 + Seq::<u8>::empty() + p5 =~= d);
    }
    // the formatted number at 0
    assert(paren_prefix_at(s, 0));
    assert(paren_extent(s, 0, 14, 7) == 14);
    assert(paren_extent(s, 0, 13, 6) == 14);
    assert(paren_extent(s, 0, 12, 5) == 14);
    assert(paren_extent(s, 0, 11, 4) == 14);
    assert(paren_extent(s, 0, 10, 3) == 14);
    assert(paren_extent(s, 0, 9, 3) == 14);
    assert(paren_extent(s, 0, 8, 2) == 14);
    assert(paren_extent(s, 0, 7, 1) == 14);
    assert(paren_extent(s, 0, 6, 0) == 14);
    assert(s.subrange(0, 14) =~= s);
    lemma_paren_value_digits(s, 0, 14);
    let m = PhoneMatchView {
        phone_type: PhoneType::FormattedDomestic,
        value: chars_of(s.update(5, 32)),
        normalized: chars_of(d),
        position: 0,
    };
    assert(paren_match_at(s, 0) == Some((m, 14int)));
    assert(formatted_phase(s, 14, 1) == Some(Seq::<PhoneMatchView>::empty()));
    assert(formatted_phase(s, 0, 0) == Some(seq![m])) by {
        assert(seq![m] + Seq::<PhoneMatchView>::empty() =~= seq![m]);
    }
    // no plain number: every run of digits is at most four long
    assert forall|k: int| #[trigger] run_starts_at(s, k) implies run_end(s, k) - k < 10 by {
        if k <= 4 {
            lemma_run_end_stops(s, k, 4);
        } else if k <= 9 {
            assert(!is_digit_byte(s[9]));
            lemma_run_end_stops(s, k, 9);
        } else {
            lemma_run_end_bounds(s, k);
        }
    }
    lemma_plain_phase_short_runs(s, 0, 1);
    assert(raw_matches(s) == Some(seq![m])) by {
        assert(Seq::<PhoneMatchView>::empty() + seq![m] + Seq::<PhoneMatchView>::empty() =~= seq![m]);
    }
    assert(sort_by_position(seq![m]) == seq![m]) by {
        assert(seq![m].drop_first() =~= Seq::<PhoneMatchView>::empty());
        assert(sort_by_position(Seq::<PhoneMatchView>::empty()) == Seq::<PhoneMatchView>::empty());
        assert(sort_by_position(seq![m].drop_first()) == Seq::<PhoneMatchView>::empty());
        assert(seq![m][0] == m);
        assert(insert_by_position(Seq::<PhoneMatchView>::empty(), m) == seq![m]);
    }
    assert(select_non_overlapping(seq![m], 0, Set::empty()) == seq![m]) by {
        assert(seq![m].drop_first() =~= Seq::<PhoneMatchView>::empty());
        assert(seq![m][0] == m);
        let rest_end = (m.position + vstd::utf8::encode_utf8(m.value).len()) as int;
        assert(select_non_overlapping(
            Seq::<PhoneMatchView>::empty(),
            rest_end,
            Set::<Seq<char>>::empty().insert(m.normalized),
        ) == Seq::<PhoneMatchView>::empty());
        assert(seq![m] + Seq::<PhoneMatchView>::empty() =~= seq![m]);
    }
}

} // verus!
