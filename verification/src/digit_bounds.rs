//! Bounds on the digits that the scanner's walks can read: none reads more
//! decimal digits than the text holds.
use vstd::prelude::*;
use crate::classifier::is_digit_byte;
use crate::scan_props::read_from;
use crate::scan_spec::{
    MAX_PHONE_LENGTH, intl_digit_count, paren_digit_count, group_count, run_end,
};
use crate::text::{digits_of, digit_chars, lemma_digits_of_concat};
use crate::types::PhoneMatchView;

verus! {

/// The number of decimal digits of `s` from offset `j` on.
pub open spec fn digits_from(s: Seq<u8>, j: int) -> nat {
    digits_of(s.subrange(j, s.len() as int)).len()
}

/// The digits from `j` on are the digit at `j`, if it is one, and the digits
/// from `j + 1` on.
pub proof fn lemma_digits_from_step(s: Seq<u8>, j: int)
    requires
        0 <= j < s.len(),
    ensures
        digits_from(s, j) == digits_from(s, j + 1) + (if is_digit_byte(s[j]) {
            1nat
        } else {
            0nat
        }),
{
    let head = seq![s[j]];
    let rest = s.subrange(j + 1, s.len() as int);
    assert(s.subrange(j, s.len() as int) =~= head + rest);
    lemma_digits_of_concat(head, rest);
    assert(head.len() == 1);
    assert(head.drop_last() =~= Seq::<u8>::empty());
    assert(digits_of(head.drop_last()).len() == 0);
    assert(head.last() == s[j]);
    assert(digits_of(head).len() == (if is_digit_byte(s[j]) {
        1nat
    } else {
        0nat
    }));
}

/// A part of a text has no more digits than the whole text.
pub proof fn lemma_digits_of_subrange(s: Seq<u8>, a: int, b: int)
    requires
        0 <= a <= b <= s.len(),
    ensures
        digits_of(s.subrange(a, b)).len() <= digits_of(s).len(),
{
    let x = s.subrange(0, a);
    let y = s.subrange(a, b);
    let z = s.subrange(b, s.len() as int);
    assert(s =~= x + y + z);
    lemma_digits_of_concat(x + y, z);
    lemma_digits_of_concat(x, y);
}

/// The digits from `j` on are no more than the digits of the whole text.
pub proof fn lemma_digits_from_le_all(s: Seq<u8>, j: int)
    requires
        0 <= j <= s.len(),
    ensures
        digits_from(s, j) <= digits_of(s).len(),
{
    lemma_digits_of_subrange(s, j, s.len() as int);
}

/// The international walk from `j` reads no more digits than there are from
/// `j` on.
pub proof fn lemma_intl_digit_count_bound(s: Seq<u8>, start: int, j: int, dc: nat)
    requires
        0 <= j <= s.len(),
    ensures
        intl_digit_count(s, start, j, dc) <= dc + digits_from(s, j),
    decreases s.len() - j,
{
    if 0 <= j < s.len() && j < start + MAX_PHONE_LENGTH {
        lemma_digits_from_step(s, j);
        lemma_intl_digit_count_bound(s, start, j + 1, dc + 1);
        lemma_intl_digit_count_bound(s, start, j + 1, dc);
    }
}

/// The walk after `(ddd)` from `end` reads no more digits than there are from
/// `end` on.
pub proof fn lemma_paren_digit_count_bound(s: Seq<u8>, end: int, dc: nat)
    requires
        0 <= end <= s.len(),
    ensures
        paren_digit_count(s, end, dc) <= dc + digits_from(s, end),
    decreases s.len() - end,
{
    if 0 <= end < s.len() && dc < 7 {
        lemma_digits_from_step(s, end);
        lemma_paren_digit_count_bound(s, end + 1, dc + 1);
        lemma_paren_digit_count_bound(s, end + 1, dc);
    }
}

/// The walk over digit groups from `j` reads no more digits than there are
/// from `j` on.
pub proof fn lemma_group_count_bound(s: Seq<u8>, start: int, j: int, dc: nat, sep: u8, has: bool)
    requires
        0 <= j <= s.len(),
    ensures
        group_count(s, start, j, dc, sep, has).0 <= dc + digits_from(s, j),
    decreases s.len() - j,
{
    if 0 <= j < s.len() && j < start + MAX_PHONE_LENGTH {
        lemma_digits_from_step(s, j);
        let c = s[j];
        let sep1: u8 = if sep == 0 {
            c
        } else {
            sep
        };
        lemma_group_count_bound(s, start, j + 1, dc + 1, sep, has);
        lemma_group_count_bound(s, start, j + 1, dc, sep1, true);
    }
}

/// A run of digits from `i` is no longer than the number of digits from `i`
/// on.
pub proof fn lemma_run_end_bound(s: Seq<u8>, i: int)
    requires
        0 <= i <= s.len(),
    ensures
        run_end(s, i) - i <= digits_from(s, i),
    decreases s.len() - i,
{
    if 0 <= i < s.len() && is_digit_byte(s[i]) {
        lemma_digits_from_step(s, i);
        lemma_run_end_bound(s, i + 1);
    }
}

/// Characters and bytes that are digits at the same places have as many
/// digits.
pub proof fn lemma_same_digit_places(v: Seq<char>, t: Seq<u8>)
    requires
        v.len() == t.len(),
        forall|k: int| 0 <= k < v.len() ==> ('0' <= #[trigger] v[k] <= '9') == is_digit_byte(t[k]),
    ensures
        digit_chars(v).len() == digits_of(t).len(),
    decreases v.len(),
{
    if v.len() > 0 {
        let v1 = v.drop_last();
        let t1 = t.drop_last();
        assert forall|k: int| 0 <= k < v1.len() implies ('0' <= #[trigger] v1[k] <= '9')
            == is_digit_byte(t1[k]) by {
            assert(v1[k] == v[k]);
        }
        lemma_same_digit_places(v1, t1);
        assert(('0' <= v[v.len() - 1] <= '9') == is_digit_byte(t[t.len() - 1]));
    }
}

/// A number read from a text has no more digits than the text.
pub proof fn lemma_read_from_digits(s: Seq<u8>, m: PhoneMatchView)
    requires
        read_from(s, m),
    ensures
        m.normalized.len() <= digits_of(s).len(),
{
    let p = m.position as int;
    let n = m.value.len() as int;
    let t = s.subrange(p, p + n);
    assert forall|k: int| 0 <= k < m.value.len() implies ('0' <= #[trigger] m.value[k] <= '9')
        == is_digit_byte(t[k]) by {
        assert(t[k] == s[p + k]);
        let b = s[p + k];
        assert(('0' <= (b as char) <= '9') == is_digit_byte(b));
    }
    lemma_same_digit_places(m.value, t);
    lemma_digits_of_subrange(s, p, p + n);
}

} // verus!
