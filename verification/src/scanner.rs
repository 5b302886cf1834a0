//! The phone number scanner: finds whether a text holds a phone number, and
//! extracts the phone numbers it holds.
use vstd::prelude::*;
use vstd::string::StringSliceAdditionalSpecFns;
use crate::classifier::{CharacterClassifier, is_digit_byte, is_separator_byte, is_paren_byte};
use crate::limiter::{BatchState, OperationLimiter, BATCH_SIZE};
use crate::scan_spec::{
    MAX_INPUT_SIZE, MAX_PHONE_LENGTH, MIN_DIGITS, MAX_DIGITS, MAX_OPERATIONS, MAX_PHONES_EXTRACT,
    MAX_MEMORY_BUDGET, intl_digit_count, intl_hit, paren_digit_count, group_count, run_end, paren_hit, group_hit,
    plain_hit, paren_prefix_at, run_starts_at, contains_spec, lemma_run_end_bounds, intl_extent,
    paren_extent, dash_extent, lemma_intl_extent_bounds, lemma_paren_extent_bounds,
    lemma_dash_extent_bounds, dash_kind, plain_kind, match_view, paren_value, prepend, intl_phase,
    formatted_phase, plain_phase, intl_match_at, paren_match_at, dash_match_at,
    lemma_dash_first_step, lemma_paren_value_digits, lemma_paren_value_chars,
    lemma_insert_by_position_at, insert_by_position, sort_by_position, select_non_overlapping,
    budget_exceeded, select_spec, raw_matches, extract_spec,
};
use crate::scan_props::{
    read_from, lemma_raw_matches_read_from, lemma_phone_value_utf8_len,
    lemma_sort_by_position_members, lemma_select_non_overlapping, extraction_of,
};
use crate::text::lemma_digit_chars_len;
use crate::text::{push_char, ascii_string, digit_string, digits_vec, push_bytes_as_chars, chars_of, all_digits,
    lemma_digits_of_all_digits};
use crate::types::{PhoneType, PhoneMatch, PhoneMatchView, views_of};
use crate::safe_arithmetic::{saturating_add, multiply, spec_saturating_add};
use vstd::layout::{size_of, size_of_as_usize};
use crate::text::{digits_of, lemma_digits_of_push};


verus! {

/// `prefix` followed by the matches of `rest`, if `rest` did not fail.
pub open spec fn append_opt(prefix: Seq<PhoneMatchView>, rest: Option<Seq<PhoneMatchView>>) -> Option<
    Seq<PhoneMatchView>,
> {
    match rest {
        Some(r) => Some(prefix + r),
        None => None,
    }
}

/// The end of `m` in the text, measured in bytes, fits in a `usize`.
pub open spec fn end_fits(m: PhoneMatch) -> bool {
    m.position + vstd::utf8::encode_utf8(m.value@).len() <= usize::MAX
}

/// The memory attributed to a found number: the capacity of its text, the
/// capacity of its digits when they are counted, the size of a match and of
/// two strings, and 64 bytes; every sum saturates at `usize::MAX`.
pub open spec fn memory_cost(text_capacity: usize, digits_capacity: Option<usize>) -> usize {
    let with_digits = match digits_capacity {
        Some(c) => spec_saturating_add(text_capacity, c),
        None => text_capacity,
    };
    let with_match = spec_saturating_add(with_digits, size_of_as_usize::<PhoneMatch>());
    let strings: usize = if size_of::<String>() * 2 <= usize::MAX {
        (size_of::<String>() * 2) as usize
    } else {
        usize::MAX
    };
    spec_saturating_add(spec_saturating_add(with_match, strings), 64)
}

/// `c` is the memory cost of a number for some capacities of its text and,
/// when `with_digits`, of its digits.
pub open spec fn is_memory_cost(c: usize, with_digits: bool) -> bool {
    if with_digits {
        exists|t: usize, d: usize| c == #[trigger] memory_cost(t, Some(d))
    } else {
        exists|t: usize| c == #[trigger] memory_cost(t, None)
    }
}

/// Whether some string of `seen` equals `x`.
fn contains_string(seen: &Vec<String>, x: &String) -> (r: bool)
    ensures
        r == exists|k: int| 0 <= k < seen@.len() && seen@[k]@ == x@,
{
    let mut k: usize = 0;
    while k < seen.len()
        invariant
            k <= seen@.len(),
            forall|t: int| 0 <= t < k ==> seen@[t]@ != x@,
        decreases seen@.len() - k,
    {
        if seen[k] == *x {
            return true;
        }
        k += 1;
    }
    false
}

/// `String::capacity`: the number of bytes the string can hold without
/// reallocating. It depends on the allocator; nothing is stated of it.
#[verifier::external_body]
fn string_capacity(s: &String) -> usize {
    s.capacity()
}

/// Finds phone numbers in text, within fixed limits on input size, work and
/// memory.
pub struct PhoneScanner {
    max_input_size: usize,
    max_phone_length: usize,
    min_digits: usize,
    max_digits: usize,
    max_operations: usize,
    max_phones_extract: usize,
    max_memory_budget: usize,
}

impl PhoneScanner {
    #[verifier::type_invariant]
    spec fn limits_inv(self) -> bool {
        &&& self.max_input_size == MAX_INPUT_SIZE
        &&& self.max_phone_length == MAX_PHONE_LENGTH
        &&& self.min_digits == MIN_DIGITS
        &&& self.max_digits == MAX_DIGITS
        &&& self.max_operations == MAX_OPERATIONS
        &&& self.max_phones_extract == MAX_PHONES_EXTRACT
        &&& self.max_memory_budget == MAX_MEMORY_BUDGET
    }

    /// A scanner with the default limits.
    pub fn new() -> (r: Self) {
        PhoneScanner {
            max_input_size: MAX_INPUT_SIZE,
            max_phone_length: MAX_PHONE_LENGTH,
            min_digits: MIN_DIGITS,
            max_digits: MAX_DIGITS,
            max_operations: MAX_OPERATIONS,
            max_phones_extract: MAX_PHONES_EXTRACT,
            max_memory_budget: MAX_MEMORY_BUDGET,
        }
    }

    /// The digits read by the walk over the international number at `i`.
    fn intl_digit_count_at(&self, data: &[u8], i: usize) -> (r: usize)
        requires
            i + 1 < data@.len() <= MAX_INPUT_SIZE,
        ensures
            r == intl_digit_count(data@, i as int, i + 1, 0),
    {
        proof {
            use_type_invariant(self);
        }
        let len = data.len();
        let mut j = i + 1;
        let mut dc: usize = 0;
        while j < len && j < i + self.max_phone_length
            invariant
                i + 1 <= j <= len,
                len == data@.len() <= MAX_INPUT_SIZE,
                self.max_phone_length == MAX_PHONE_LENGTH,
                dc <= j,
                intl_digit_count(data@, i as int, i + 1, 0) == intl_digit_count(
                    data@,
                    i as int,
                    j as int,
                    dc as nat,
                ),
            ensures
                intl_digit_count(data@, i as int, j as int, dc as nat) == dc,
            decreases len - j,
        {
            let c = data[j];
            if CharacterClassifier::is_digit(c) {
                dc += 1;
                j += 1;
            } else if CharacterClassifier::is_separator(c) && dc > 0 && j + 1 < len
                && CharacterClassifier::is_digit(data[j + 1]) {
                j += 1;
            } else if CharacterClassifier::is_paren(c) && dc > 0 {
                j += 1;
            } else {
                break;
            }
        }
        dc
    }

    /// The digits read after `(ddd)` and a space or dash at `i`.
    fn paren_digit_count_at(&self, data: &[u8], i: usize) -> (r: usize)
        requires
            i + 6 <= data@.len() <= MAX_INPUT_SIZE,
        ensures
            r == paren_digit_count(data@, i + 6, 0),
    {
        let len = data.len();
        let mut end = i + 6;
        let mut dc: usize = 0;
        while end < len && dc < 7
            invariant
                i + 6 <= end <= len,
                len == data@.len(),
                dc <= 7,
                paren_digit_count(data@, i + 6, 0) == paren_digit_count(
                    data@,
                    end as int,
                    dc as nat,
                ),
            ensures
                paren_digit_count(data@, end as int, dc as nat) == dc,
            decreases len - end,
        {
            if CharacterClassifier::is_digit(data[end]) {
                dc += 1;
                end += 1;
            } else if CharacterClassifier::is_separator(data[end]) && dc > 0 && dc < 7 {
                end += 1;
            } else {
                break;
            }
        }
        dc
    }

    /// The digits read, and whether a separator was taken, by the walk over
    /// digit groups that starts at `i`.
    fn group_count_at(&self, data: &[u8], i: usize) -> (r: (usize, bool))
        requires
            i < data@.len() <= MAX_INPUT_SIZE,
        ensures
            (r.0 as nat, r.1) == group_count(data@, i as int, i as int, 0, 0, false),
    {
        proof {
            use_type_invariant(self);
        }
        let len = data.len();
        let mut j = i;
        let mut dc: usize = 0;
        let mut separator: u8 = 0;
        let mut has_separator = false;
        while j < len && j < i + self.max_phone_length
            invariant
                i <= j <= len,
                len == data@.len() <= MAX_INPUT_SIZE,
                self.max_phone_length == MAX_PHONE_LENGTH,
                dc <= j,
                group_count(data@, i as int, i as int, 0, 0, false) == group_count(
                    data@,
                    i as int,
                    j as int,
                    dc as nat,
                    separator,
                    has_separator,
                ),
            ensures
                group_count(data@, i as int, j as int, dc as nat, separator, has_separator) == (
                dc as nat, has_separator),
            decreases len - j,
        {
            let c = data[j];
            if CharacterClassifier::is_digit(c) {
                dc += 1;
                j += 1;
            } else if CharacterClassifier::is_separator(c) && dc > 0 && dc < 11 && j + 1 < len
                && CharacterClassifier::is_digit(data[j + 1]) {
                if separator == 0 {
                    separator = c;
                }
                if c == separator || c == 32 {
                    has_separator = true;
                    j += 1;
                } else {
                    break;
                }
            } else {
                break;
            }
        }
        (dc, has_separator)
    }

    /// Whether an international number starts anywhere in `data`; counts one
    /// step per byte.
    fn contains_international(
        &self,
        data: &[u8],
        limiter: &mut OperationLimiter,
        batch: &mut BatchState,
    ) -> (r: bool)
        requires
            data@.len() <= MAX_INPUT_SIZE,
            old(limiter).max() == MAX_OPERATIONS,
            old(limiter).count() + old(batch).local() + data@.len() <= MAX_OPERATIONS,
        ensures
            final(limiter).max() == MAX_OPERATIONS,
            final(limiter).count() + final(batch).local() <= old(limiter).count() + old(
                batch,
            ).local() + data@.len(),
            r == exists|i: int| intl_hit(data@, i),
    {
        proof {
            use_type_invariant(self);
        }
        let len = data.len();
        let ghost c0 = limiter.count() + batch.local();
        let mut i: usize = 0;
        while i < len
            invariant
                i <= len,
                len == data@.len() <= MAX_INPUT_SIZE,
                self.min_digits == MIN_DIGITS,
                self.max_digits == MAX_DIGITS,
                limiter.max() == MAX_OPERATIONS,
                limiter.count() + batch.local() <= c0 + i,
                c0 == old(limiter).count() + old(batch).local(),
                c0 + len <= MAX_OPERATIONS,
                forall|k: int| 0 <= k < i ==> !intl_hit(data@, k),
            decreases len - i,
        {
            if !limiter.record_operation(batch) {
                return false;
            }
            assert(limiter.count() + batch.local() <= c0 + i + 1);
            if data[i] == 43 && i + 1 < len && CharacterClassifier::is_digit(data[i + 1]) {
                let digit_count = self.intl_digit_count_at(data, i);
                if digit_count >= self.min_digits && digit_count <= self.max_digits {
                    assert(intl_hit(data@, i as int));
                    return true;
                }
            }
            assert(!intl_hit(data@, i as int));
            i += 1;
        }
        proof {
            assert forall|k: int| !intl_hit(data@, k) by {
                if 0 <= k < len {
                } else {
                }
            }
        }
        false
    }

    /// Whether a formatted number starts anywhere in `data`; counts one step
    /// per byte.
    fn contains_formatted(&self, data: &[u8], limiter: &mut OperationLimiter, batch: &mut BatchState) -> (r:
        bool)
        requires
            data@.len() <= MAX_INPUT_SIZE,
            old(limiter).max() == MAX_OPERATIONS,
            old(limiter).count() + old(batch).local() + data@.len() <= MAX_OPERATIONS,
        ensures
            final(limiter).max() == MAX_OPERATIONS,
            final(limiter).count() + final(batch).local() <= old(limiter).count() + old(
                batch,
            ).local() + data@.len(),
            r == exists|i: int| paren_hit(data@, i) || group_hit(data@, i),
    {
        let len = data.len();
        let ghost c0 = limiter.count() + batch.local();
        let mut i: usize = 0;
        while i < len
            invariant
                i <= len,
                len == data@.len() <= MAX_INPUT_SIZE,
                limiter.max() == MAX_OPERATIONS,
                limiter.count() + batch.local() <= c0 + i,
                c0 == old(limiter).count() + old(batch).local(),
                c0 + len <= MAX_OPERATIONS,
                forall|k: int| 0 <= k < i ==> !(paren_hit(data@, k) || group_hit(data@, k)),
            decreases len - i,
        {
            if !limiter.record_operation(batch) {
                return false;
            }
            assert(limiter.count() + batch.local() <= c0 + i + 1);
            // (ddd) ddd-dddd
            if data[i] == 40 && i + 14 <= len {
                if CharacterClassifier::is_digit(data[i + 1]) && CharacterClassifier::is_digit(
                    data[i + 2],
                ) && CharacterClassifier::is_digit(data[i + 3]) && data[i + 4] == 41 && (data[i
                    + 5] == 32 || data[i + 5] == 45) {
                    let digit_count = self.paren_digit_count_at(data, i);
                    if digit_count == 7 {
                        if data[i + 1] != 48 {
                            assert(paren_hit(data@, i as int));
                            return true;
                        }
                    }
                }
            }
            assert(!paren_hit(data@, i as int));
            // digit groups joined by separators
            if CharacterClassifier::is_digit(data[i]) && (i == 0 || !CharacterClassifier::is_digit(
                data[i - 1],
            )) {
                let (digit_count, has_separator) = self.group_count_at(data, i);
                if has_separator && digit_count >= 10 && digit_count <= 11 {
                    if digit_count == 10 && data[i] != 48 {
                        assert(group_hit(data@, i as int));
                        return true;
                    } else if digit_count == 11 && data[i] == 49 {
                        assert(group_hit(data@, i as int));
                        return true;
                    }
                }
            }
            assert(!group_hit(data@, i as int));
            i += 1;
        }
        false
    }

    /// Whether a plain run of digits that makes a number starts anywhere in
    /// `data`; counts one step per byte.
    fn contains_plain_digits(&self, data: &[u8], limiter: &mut OperationLimiter, batch: &mut BatchState) -> (r:
        bool)
        requires
            data@.len() <= MAX_INPUT_SIZE,
            old(limiter).max() == MAX_OPERATIONS,
            old(limiter).count() + old(batch).local() + data@.len() <= MAX_OPERATIONS,
        ensures
            final(limiter).max() == MAX_OPERATIONS,
            final(limiter).count() + final(batch).local() <= old(limiter).count() + old(
                batch,
            ).local() + data@.len(),
            r == exists|i: int| plain_hit(data@, i),
    {
        let len = data.len();
        let ghost c0 = limiter.count() + batch.local();
        let mut i: usize = 0;
        while i < len
            invariant
                i <= len,
                len == data@.len() <= MAX_INPUT_SIZE,
                limiter.max() == MAX_OPERATIONS,
                limiter.count() + batch.local() <= c0 + i,
                c0 == old(limiter).count() + old(batch).local(),
                c0 + len <= MAX_OPERATIONS,
                forall|k: int| 0 <= k < i ==> !plain_hit(data@, k),
            decreases len - i,
        {
            if !limiter.record_operation(batch) {
                return false;
            }
            assert(limiter.count() + batch.local() <= c0 + i + 1);
            if !CharacterClassifier::is_digit(data[i]) {
                i += 1;
                continue;
            }
            if i > 0 && CharacterClassifier::is_digit(data[i - 1]) {
                i += 1;
                continue;
            }
            let start = i;
            let mut digit_count: usize = 0;
            while i < len && CharacterClassifier::is_digit(data[i])
                invariant
                    start < len,
                    start <= i <= len,
                    len == data@.len(),
                    digit_count == i - start,
                    run_end(data@, start as int) == run_end(data@, i as int),
                decreases len - i,
            {
                digit_count += 1;
                i += 1;
            }
            proof {
                lemma_run_end_bounds(data@, start as int);
                assert forall|k: int| start < k < i implies !#[trigger] plain_hit(data@, k) by {
                    assert(is_digit_byte(data@[k - 1]));
                }
            }
            if i < len && CharacterClassifier::is_digit(data[i]) {
                continue;
            }
            if digit_count == 10 && data[start] >= 49 && data[start] <= 57 {
                assert(plain_hit(data@, start as int));
                return true;
            } else if digit_count == 11 && data[start] == 49 && data[start + 1] != 48 {
                assert(plain_hit(data@, start as int));
                return true;
            }
            assert(!plain_hit(data@, start as int));
        }
        false
    }

    /// Whether `text` holds a phone number: an international number, a
    /// formatted one, or a plain run of digits (see `contains_spec`). Texts
    /// shorter than `MIN_DIGITS` or longer than `MAX_INPUT_SIZE` bytes hold none.
    pub fn contains(&self, text: &str) -> (r: bool)
        ensures
            r == contains_spec(text.spec_bytes()),
    {
        proof {
            use_type_invariant(self);
        }
        let data = text.as_bytes();
        let len = data.len();
        if len > self.max_input_size || len < self.min_digits {
            return false;
        }
        let mut limiter = OperationLimiter::new(self.max_operations);
        let mut batch = BatchState::new();
        if self.contains_international(data, &mut limiter, &mut batch) {
            limiter.flush(&batch);
            return true;
        }
        if self.contains_formatted(data, &mut limiter, &mut batch) {
            limiter.flush(&batch);
            return true;
        }
        if self.contains_plain_digits(data, &mut limiter, &mut batch) {
            limiter.flush(&batch);
            return true;
        }
        limiter.flush(&batch);
        false
    }

    /// Where the walk over the international number at `start` stops, and
    /// the digits it read.
    fn intl_extent_at(&self, data: &[u8], start: usize) -> (r: (usize, usize))
        requires
            start + 1 < data@.len() <= MAX_INPUT_SIZE,
            data@[start as int] == 43,
        ensures
            r.0 == intl_extent(data@, start as int, start + 1, 0),
            r.1 == digits_of(data@.subrange(start as int, r.0 as int)).len(),
            start + 1 <= r.0 <= data@.len(),
    {
        proof {
            use_type_invariant(self);
            let x = data@.subrange(start as int, start + 1);
            assert(x.drop_last() =~= Seq::<u8>::empty());
            assert(x.last() == 43);
            assert(digits_of(x) == digits_of(x.drop_last()));
            assert(digits_of(x).len() == 0);
        }
        let len = data.len();
        let mut i = start + 1;
        let mut dc: usize = 0;
        while i < len && i - start < self.max_phone_length
            invariant
                start + 1 <= i <= len,
                len == data@.len() <= MAX_INPUT_SIZE,
                self.max_phone_length == MAX_PHONE_LENGTH,
                intl_extent(data@, start as int, start + 1, 0) == intl_extent(
                    data@,
                    start as int,
                    i as int,
                    dc as nat,
                ),
                dc == digits_of(data@.subrange(start as int, i as int)).len(),
                dc <= i,
            ensures
                intl_extent(data@, start as int, i as int, dc as nat) == i,
                start + 1 <= i <= len,
                dc == digits_of(data@.subrange(start as int, i as int)).len(),
            decreases len - i,
        {
            let c = data[i];
            proof {
                assert(data@.subrange(start as int, i + 1) =~= data@.subrange(start as int, i as int).push(c));
                lemma_digits_of_push(data@.subrange(start as int, i as int), c);
            }
            if CharacterClassifier::is_digit(c) {
                dc += 1;
                i += 1;
            } else if (CharacterClassifier::is_separator(c) || c == 40) && dc > 0 && i + 1 < len
                && (CharacterClassifier::is_digit(data[i + 1]) || data[i + 1] == 40) {
                i += 1;
            } else if c == 41 && dc > 0 {
                i += 1;
            } else {
                break;
            }
        }
        (i, dc)
    }

    /// Where the walk after `(ddd)` and a space or dash at `i` stops.
    fn paren_extent_at(&self, data: &[u8], i: usize) -> (r: usize)
        requires
            paren_prefix_at(data@, i as int),
            data@.len() <= MAX_INPUT_SIZE,
        ensures
            r == paren_extent(data@, i as int, i + 6, 0),
            i + 6 <= r <= data@.len(),
    {
        proof {
            use_type_invariant(self);
        }
        let len = data.len();
        let mut end = i + 6;
        let mut digit_count: usize = 0;
        while end < len && digit_count < 7 && end - i < self.max_phone_length
            invariant
                i + 6 <= end <= len,
                len == data@.len() <= MAX_INPUT_SIZE,
                self.max_phone_length == MAX_PHONE_LENGTH,
                digit_count <= 7,
                paren_extent(data@, i as int, i + 6, 0) == paren_extent(
                    data@,
                    i as int,
                    end as int,
                    digit_count as nat,
                ),
            ensures
                paren_extent(data@, i as int, end as int, digit_count as nat) == end,
                i + 6 <= end <= len,
            decreases len - end,
        {
            if CharacterClassifier::is_digit(data[end]) {
                digit_count += 1;
                end += 1;
            } else if CharacterClassifier::is_separator(data[end]) && digit_count > 0 && digit_count
                < 7 {
                end += 1;
            } else {
                break;
            }
        }
        end
    }

    /// Where the walk over digit groups that starts at `start` stops, the
    /// separator it kept, and whether it took a separator.
    fn dash_extent_at(&self, data: &[u8], start: usize) -> (r: (usize, u8, bool))
        requires
            start < data@.len() <= MAX_INPUT_SIZE,
        ensures
            (r.0 as int, r.1, r.2) == dash_extent(data@, start as int, start as int, 0, 0, false),
            start <= r.0 <= data@.len(),
    {
        proof {
            use_type_invariant(self);
        }
        let len = data.len();
        let mut i = start;
        let mut digit_count: usize = 0;
        let mut separator: u8 = 0;
        let mut has_separator = false;
        while i < len && i - start < self.max_phone_length
            invariant
                start <= i <= len,
                len == data@.len() <= MAX_INPUT_SIZE,
                self.max_phone_length == MAX_PHONE_LENGTH,
                digit_count <= i,
                dash_extent(data@, start as int, start as int, 0, 0, false) == dash_extent(
                    data@,
                    start as int,
                    i as int,
                    digit_count as nat,
                    separator,
                    has_separator,
                ),
            ensures
                dash_extent(
                    data@,
                    start as int,
                    i as int,
                    digit_count as nat,
                    separator,
                    has_separator,
                ) == (i as int, separator, has_separator),
                start <= i <= len,
            decreases len - i,
        {
            let c = data[i];
            if CharacterClassifier::is_digit(c) {
                digit_count += 1;
                i += 1;
            } else if CharacterClassifier::is_separator(c) && digit_count > 0 && digit_count < 11 && i
                + 1 < len && CharacterClassifier::is_digit(data[i + 1]) {
                if separator == 0 {
                    separator = c;
                }
                if c == separator || c == 32 || separator == 32 {
                    if separator != 32 && c == 32 {
                        // the separator in use stays
                    } else {
                        separator = c;
                    }
                    has_separator = true;
                    i += 1;
                } else {
                    break;
                }
            } else {
                break;
            }
        }
        (i, separator, has_separator)
    }

    /// The kind of separated digit groups with digits `d` and separator `sep`.
    fn dash_kind_of(d: &Vec<u8>, sep: u8) -> (r: Option<PhoneType>)
        ensures
            r == dash_kind(d@, sep),
    {
        if d.len() == 10 {
            if sep == 32 && d[0] >= 49 && d[0] <= 57 {
                Some(PhoneType::Mobile10Digit)
            } else if d[0] != 48 && d[3] >= 50 {
                Some(PhoneType::FormattedDomestic)
            } else {
                None
            }
        } else if d.len() == 11 && d[0] == 49 && d[1] != 48 {
            Some(PhoneType::FormattedTollFree)
        } else {
            None
        }
    }

    /// The kind of the run of digits `data[start..end]`.
    fn plain_kind_of(data: &[u8], start: usize, end: usize) -> (r: Option<PhoneType>)
        requires
            start <= end <= data@.len(),
        ensures
            r == plain_kind(data@.subrange(start as int, end as int)),
    {
        let n = end - start;
        if n == 10 {
            if data[start] >= 54 && data[start] <= 57 {
                Some(PhoneType::Mobile10Digit)
            } else if data[start] >= 50 && data[start] <= 53 && data[start + 3] >= 50 {
                Some(PhoneType::Plain10Digit)
            } else if data[start] == 49 {
                Some(PhoneType::Mobile10Digit)
            } else {
                None
            }
        } else if n == 11 && data[start] == 49 && data[start + 1] != 48 {
            Some(PhoneType::Plain11Digit)
        } else {
            None
        }
    }

    /// The memory attributed to a found number whose text has capacity
    /// `text_capacity` and whose digits, when counted, have capacity
    /// `digits_capacity` (see `memory_cost`).
    fn match_memory(text_capacity: usize, digits_capacity: Option<usize>) -> (r: usize)
        ensures
            r == memory_cost(text_capacity, digits_capacity),
    {
        let mut memory = text_capacity;
        if let Some(capacity) = digits_capacity {
            memory = saturating_add(memory, capacity);
        }
        memory = saturating_add(memory, core::mem::size_of::<PhoneMatch>());
        let (strings, _) = multiply(core::mem::size_of::<String>(), 2);
        memory = saturating_add(memory, strings);
        saturating_add(memory, 64)
    }

    /// Appends the international numbers of `data` to `matches`, and their
    /// memory costs to `costs`; fails when `MAX_PHONES_EXTRACT` numbers are
    /// already held at a step.
    fn scan_international(
        &self,
        data: &[u8],
        matches: &mut Vec<PhoneMatch>,
        costs: &mut Vec<usize>,
        limiter: &mut OperationLimiter,
        batch: &mut BatchState,
    ) -> (ok: bool)
        requires
            data@.len() <= MAX_INPUT_SIZE,
            old(limiter).max() == MAX_OPERATIONS,
            old(limiter).count() + old(batch).local() + data@.len() <= MAX_OPERATIONS,
            old(matches)@.len() == old(costs)@.len(),
        ensures
            final(limiter).max() == MAX_OPERATIONS,
            final(limiter).count() + final(batch).local() <= old(limiter).count() + old(
                batch,
            ).local() + data@.len(),
            final(matches)@.len() == final(costs)@.len(),
            final(costs)@.take(old(costs)@.len() as int) == old(costs)@,
            forall|k: int|
                old(costs)@.len() <= k < final(costs)@.len() ==> is_memory_cost(
                    #[trigger] final(costs)@[k],
                    true,
                ),
            old(matches)@.len() <= final(matches)@.len(),
            ok ==> intl_phase(data@, 0, old(matches)@.len()) == Some(
                views_of(final(matches)@).skip(old(matches)@.len() as int),
            ),
            ok ==> views_of(final(matches)@).take(old(matches)@.len() as int) == views_of(old(matches)@),
            !ok ==> intl_phase(data@, 0, old(matches)@.len()) is None,
    {
        proof {
            use_type_invariant(self);
        }
        let len = data.len();
        let ghost c0 = limiter.count() + batch.local();
        let ghost n0 = matches@.len();
        let ghost before = views_of(matches@);
        let mut i: usize = 0;
        proof {
            assert(views_of(matches@).skip(n0 as int) =~= Seq::<PhoneMatchView>::empty());
            assert(views_of(matches@).take(n0 as int) =~= before);
            assert(append_opt(Seq::empty(), intl_phase(data@, 0, n0)) =~= intl_phase(data@, 0, n0)) by {
                match intl_phase(data@, 0, n0) {
                    Some(r) => { assert(Seq::<PhoneMatchView>::empty() + r =~= r); },
                    None => {},
                }
            }
        }
        while i < len
            invariant
                i <= len,
                len == data@.len() <= MAX_INPUT_SIZE,
                self.min_digits == MIN_DIGITS,
                self.max_digits == MAX_DIGITS,
                self.max_phones_extract == MAX_PHONES_EXTRACT,
                limiter.max() == MAX_OPERATIONS,
                limiter.count() + batch.local() <= c0 + i,
                c0 == old(limiter).count() + old(batch).local(),
                c0 + len <= MAX_OPERATIONS,
                n0 == old(matches)@.len(),
                n0 <= matches@.len(),
                matches@.len() == costs@.len(),
                costs@.take(n0 as int) == old(costs)@,
                forall|k: int|
                    n0 <= k < costs@.len() ==> is_memory_cost(#[trigger] costs@[k], true),
                views_of(matches@).take(n0 as int) == before,
                before == views_of(old(matches)@),
                intl_phase(data@, 0, n0) == append_opt(
                    views_of(matches@).skip(n0 as int),
                    intl_phase(data@, i as int, matches@.len()),
                ),
            decreases len - i,
        {
            if !limiter.record_operation(batch) {
                return false;
            }
            assert(limiter.count() + batch.local() <= c0 + i + 1);
            if matches.len() >= self.max_phones_extract {
                return false;
            }
            if data[i] == 43 && i + 1 < len && CharacterClassifier::is_digit(data[i + 1]) {
                let start = i;
                let (end, digit_count) = self.intl_extent_at(data, start);
                if digit_count >= self.min_digits && digit_count <= self.max_digits {
                    let value = ascii_string(data, start, end);
                    let digits = digit_string(data, start, end);
                    let text_capacity = string_capacity(&value);
                    let digits_capacity = string_capacity(&digits);
                    let memory = Self::match_memory(text_capacity, Some(digits_capacity));
                    let m = PhoneMatch::new(PhoneType::InternationalPlus, value, digits, start);
                    let ghost mv = match_view(
                        PhoneType::InternationalPlus,
                        data@.subrange(start as int, end as int),
                        start as int,
                    );
                    assert(m@ == mv);
                    let ghost prev = matches@;
                    let ghost prev_costs = costs@;
                    matches.push(m);
                    costs.push(memory);
                    proof {
                        assert(memory == memory_cost(text_capacity, Some(digits_capacity)));
                        assert(costs@ == prev_costs.push(memory));
                        assert(costs@.take(n0 as int) =~= prev_costs.take(n0 as int));
                    }
                    proof {
                        assert(views_of(matches@) =~= views_of(prev).push(mv));
                        assert(views_of(matches@).take(n0 as int) =~= views_of(prev).take(n0 as int));
                        assert(views_of(matches@).skip(n0 as int) =~= views_of(prev).skip(n0 as int).push(mv));
                        assert(intl_match_at(data@, start as int) == Some((mv, end as int)));
                        match intl_phase(data@, end as int, matches@.len()) {
                            Some(r) => {
                                assert(views_of(prev).skip(n0 as int) + (seq![mv] + r) =~= views_of(
                                    prev,
                                ).skip(n0 as int).push(mv) + r);
                            },
                            None => {},
                        }
                    }
                    i = end;
                    continue;
                }
                assert(intl_match_at(data@, start as int) is None);
                i = start;
            }
            assert(intl_match_at(data@, i as int) is None);
            i += 1;
        }
        proof {
            assert(views_of(matches@).skip(n0 as int) + Seq::<PhoneMatchView>::empty() =~= views_of(
                matches@,
            ).skip(n0 as int));
        }
        true
    }

    /// Appends the formatted numbers of `data` to `matches`, and their memory
    /// costs to `costs`; fails when `MAX_PHONES_EXTRACT` numbers are already
    /// held at a step.
    fn scan_formatted_numbers(
        &self,
        data: &[u8],
        matches: &mut Vec<PhoneMatch>,
        costs: &mut Vec<usize>,
        limiter: &mut OperationLimiter,
        batch: &mut BatchState,
    ) -> (ok: bool)
        requires
            data@.len() <= MAX_INPUT_SIZE,
            old(limiter).max() == MAX_OPERATIONS,
            old(limiter).count() + old(batch).local() + data@.len() <= MAX_OPERATIONS,
            old(matches)@.len() == old(costs)@.len(),
        ensures
            final(limiter).max() == MAX_OPERATIONS,
            final(limiter).count() + final(batch).local() <= old(limiter).count() + old(
                batch,
            ).local() + data@.len(),
            final(matches)@.len() == final(costs)@.len(),
            final(costs)@.take(old(costs)@.len() as int) == old(costs)@,
            forall|k: int|
                old(costs)@.len() <= k < final(costs)@.len() ==> is_memory_cost(
                    #[trigger] final(costs)@[k],
                    true,
                ),
            old(matches)@.len() <= final(matches)@.len(),
            ok ==> formatted_phase(data@, 0, old(matches)@.len()) == Some(
                views_of(final(matches)@).skip(old(matches)@.len() as int),
            ),
            ok ==> views_of(final(matches)@).take(old(matches)@.len() as int) == views_of(old(matches)@),
            !ok ==> formatted_phase(data@, 0, old(matches)@.len()) is None,
    {
        proof {
            use_type_invariant(self);
        }
        let len = data.len();
        let ghost c0 = limiter.count() + batch.local();
        let ghost n0 = matches@.len();
        let ghost before = views_of(matches@);
        let mut i: usize = 0;
        proof {
            assert(views_of(matches@).skip(n0 as int) =~= Seq::<PhoneMatchView>::empty());
            assert(views_of(matches@).take(n0 as int) =~= before);
            assert(append_opt(Seq::empty(), formatted_phase(data@, 0, n0)) =~= formatted_phase(data@, 0, n0)) by {
                match formatted_phase(data@, 0, n0) {
                    Some(r) => { assert(Seq::<PhoneMatchView>::empty() + r =~= r); },
                    None => {},
                }
            }
        }
        while i < len
            invariant
                i <= len,
                len == data@.len() <= MAX_INPUT_SIZE,
                self.max_phones_extract == MAX_PHONES_EXTRACT,
                limiter.max() == MAX_OPERATIONS,
                limiter.count() + batch.local() <= c0 + i,
                c0 == old(limiter).count() + old(batch).local(),
                c0 + len <= MAX_OPERATIONS,
                n0 == old(matches)@.len(),
                n0 <= matches@.len(),
                matches@.len() == costs@.len(),
                costs@.take(n0 as int) == old(costs)@,
                forall|k: int|
                    n0 <= k < costs@.len() ==> is_memory_cost(#[trigger] costs@[k], true),
                views_of(matches@).take(n0 as int) == before,
                before == views_of(old(matches)@),
                formatted_phase(data@, 0, n0) == append_opt(
                    views_of(matches@).skip(n0 as int),
                    formatted_phase(data@, i as int, matches@.len()),
                ),
            decreases len - i,
        {
            if !limiter.record_operation(batch) {
                return false;
            }
            assert(limiter.count() + batch.local() <= c0 + i + 1);
            if matches.len() >= self.max_phones_extract {
                return false;
            }
            // (ddd) ddd-dddd
            if data[i] == 40 && i + 14 <= len {
                if CharacterClassifier::is_digit(data[i + 1]) && CharacterClassifier::is_digit(
                    data[i + 2],
                ) && CharacterClassifier::is_digit(data[i + 3]) && data[i + 4] == 41 && (data[i
                    + 5] == 32 || data[i + 5] == 45) {
                    assert(paren_prefix_at(data@, i as int));
                    let end = self.paren_extent_at(data, i);
                    let digits = digits_vec(data, i, end);
                    if digits.len() == 10 && digits[0] != 48 && digits[3] >= 50 {
                        let mut value = String::new();
                        push_bytes_as_chars(&mut value, data, i, i + 5);
                        assert(value@ =~= chars_of(data@.subrange(i as int, i + 5)));
                        push_char(&mut value, ' ');
                        assert(value@ =~= chars_of(data@.subrange(i as int, i + 5)) + seq![' ']);
                        push_bytes_as_chars(&mut value, data, i + 6, end);
                        let normalized = ascii_string(digits.as_slice(), 0, digits.len());
                        let text_capacity = string_capacity(&value);
                        let digits_capacity = string_capacity(&normalized);
                        let memory = Self::match_memory(text_capacity, Some(digits_capacity));
                        let m = PhoneMatch::new(PhoneType::FormattedDomestic, value, normalized, i);
                        let ghost mv = match_view(
                            PhoneType::FormattedDomestic,
                            paren_value(data@, i as int, end as int),
                            i as int,
                        );
                        proof {
                            lemma_paren_value_chars(data@, i as int, end as int);
                            lemma_paren_value_digits(data@, i as int, end as int);
                            assert(digits@.subrange(0, digits@.len() as int) =~= digits@);
                        }
                        assert(m@ == mv);
                        let ghost prev = matches@;
                        let ghost prev_costs = costs@;
                        matches.push(m);
                        costs.push(memory);
                        proof {
                            assert(memory == memory_cost(text_capacity, Some(digits_capacity)));
                            assert(costs@ == prev_costs.push(memory));
                            assert(costs@.take(n0 as int) =~= prev_costs.take(n0 as int));
                        }
                        proof {
                            assert(views_of(matches@) =~= views_of(prev).push(mv));
                            assert(views_of(matches@).take(n0 as int) =~= views_of(prev).take(n0 as int));
                            assert(views_of(matches@).skip(n0 as int) =~= views_of(prev).skip(n0 as int).push(mv));
                            assert(paren_match_at(data@, i as int) == Some((mv, end as int)));
                            match formatted_phase(data@, end as int, matches@.len()) {
                                Some(r) => {
                                    assert(views_of(prev).skip(n0 as int) + (seq![mv] + r) =~= views_of(
                                        prev,
                                    ).skip(n0 as int).push(mv) + r);
                                },
                                None => {},
                            }
                        }
                        i = end;
                        continue;
                    }
                }
            }
            assert(paren_match_at(data@, i as int) is None);
            // digit groups joined by separators
            if CharacterClassifier::is_digit(data[i]) && (i == 0 || !CharacterClassifier::is_digit(
                data[i - 1],
            )) {
                let start = i;
                let (end, separator, has_separator) = self.dash_extent_at(data, start);
                proof {
                    lemma_dash_first_step(data@, start as int);
                }
                if has_separator {
                    let digits = digits_vec(data, start, end);
                    let kind = Self::dash_kind_of(&digits, separator);
                    if let Some(phone_type) = kind {
                        let value = ascii_string(data, start, end);
                        let normalized = ascii_string(digits.as_slice(), 0, digits.len());
                        let text_capacity = string_capacity(&value);
                        let digits_capacity = string_capacity(&normalized);
                        let memory = Self::match_memory(text_capacity, Some(digits_capacity));
                        let m = PhoneMatch::new(phone_type, value, normalized, start);
                        let ghost mv = match_view(
                            phone_type,
                            data@.subrange(start as int, end as int),
                            start as int,
                        );
                        proof {
                            assert(digits@.subrange(0, digits@.len() as int) =~= digits@);
                        }
                        assert(m@ == mv);
                        let ghost prev = matches@;
                        let ghost prev_costs = costs@;
                        matches.push(m);
                        costs.push(memory);
                        proof {
                            assert(memory == memory_cost(text_capacity, Some(digits_capacity)));
                            assert(costs@ == prev_costs.push(memory));
                            assert(costs@.take(n0 as int) =~= prev_costs.take(n0 as int));
                        }
                        proof {
                            assert(views_of(matches@) =~= views_of(prev).push(mv));
                            assert(views_of(matches@).take(n0 as int) =~= views_of(prev).take(n0 as int));
                            assert(views_of(matches@).skip(n0 as int) =~= views_of(prev).skip(n0 as int).push(mv));
                            assert(dash_match_at(data@, start as int) == Some((mv, end as int)));
                            match formatted_phase(data@, end as int, matches@.len()) {
                                Some(r) => {
                                    assert(views_of(prev).skip(n0 as int) + (seq![mv] + r) =~= views_of(
                                        prev,
                                    ).skip(n0 as int).push(mv) + r);
                                },
                                None => {},
                            }
                        }
                        i = end;
                        continue;
                    }
                }
                i = start;
            }
            assert(dash_match_at(data@, i as int) is None);
            i += 1;
        }
        proof {
            assert(views_of(matches@).skip(n0 as int) + Seq::<PhoneMatchView>::empty() =~= views_of(
                matches@,
            ).skip(n0 as int));
        }
        true
    }

    /// Appends the plain and spaced numbers of `data` to `matches`, and their
    /// memory costs to `costs`; fails when `MAX_PHONES_EXTRACT` numbers are
    /// already held at a step.
    fn scan_plain_digits(
        &self,
        data: &[u8],
        matches: &mut Vec<PhoneMatch>,
        costs: &mut Vec<usize>,
        limiter: &mut OperationLimiter,
        batch: &mut BatchState,
    ) -> (ok: bool)
        requires
            data@.len() <= MAX_INPUT_SIZE,
            old(limiter).max() == MAX_OPERATIONS,
            old(limiter).count() + old(batch).local() + data@.len() <= MAX_OPERATIONS,
            old(matches)@.len() == old(costs)@.len(),
        ensures
            final(limiter).max() == MAX_OPERATIONS,
            final(limiter).count() + final(batch).local() <= old(limiter).count() + old(
                batch,
            ).local() + data@.len(),
            final(matches)@.len() == final(costs)@.len(),
            final(costs)@.take(old(costs)@.len() as int) == old(costs)@,
            forall|k: int|
                old(costs)@.len() <= k < final(costs)@.len() ==> is_memory_cost(
                    #[trigger] final(costs)@[k],
                    false,
                ),
            old(matches)@.len() <= final(matches)@.len(),
            ok ==> plain_phase(data@, 0, old(matches)@.len()) == Some(
                views_of(final(matches)@).skip(old(matches)@.len() as int),
            ),
            ok ==> views_of(final(matches)@).take(old(matches)@.len() as int) == views_of(old(matches)@),
            !ok ==> plain_phase(data@, 0, old(matches)@.len()) is None,
    {
        proof {
            use_type_invariant(self);
        }
        let len = data.len();
        let ghost c0 = limiter.count() + batch.local();
        let ghost n0 = matches@.len();
        let ghost before = views_of(matches@);
        let mut i: usize = 0;
        proof {
            assert(views_of(matches@).skip(n0 as int) =~= Seq::<PhoneMatchView>::empty());
            assert(views_of(matches@).take(n0 as int) =~= before);
            assert(append_opt(Seq::empty(), plain_phase(data@, 0, n0)) =~= plain_phase(data@, 0, n0)) by {
                match plain_phase(data@, 0, n0) {
                    Some(r) => { assert(Seq::<PhoneMatchView>::empty() + r =~= r); },
                    None => {},
                }
            }
        }
        while i < len
            invariant
                i <= len,
                len == data@.len() <= MAX_INPUT_SIZE,
                self.max_phones_extract == MAX_PHONES_EXTRACT,
                limiter.max() == MAX_OPERATIONS,
                limiter.count() + batch.local() <= c0 + i,
                c0 == old(limiter).count() + old(batch).local(),
                c0 + len <= MAX_OPERATIONS,
                n0 == old(matches)@.len(),
                n0 <= matches@.len(),
                matches@.len() == costs@.len(),
                costs@.take(n0 as int) == old(costs)@,
                forall|k: int|
                    n0 <= k < costs@.len() ==> is_memory_cost(#[trigger] costs@[k], false),
                views_of(matches@).take(n0 as int) == before,
                before == views_of(old(matches)@),
                plain_phase(data@, 0, n0) == append_opt(
                    views_of(matches@).skip(n0 as int),
                    plain_phase(data@, i as int, matches@.len()),
                ),
            decreases len - i,
        {
            if !limiter.record_operation(batch) {
                return false;
            }
            assert(limiter.count() + batch.local() <= c0 + i + 1);
            if matches.len() >= self.max_phones_extract {
                return false;
            }
            if !CharacterClassifier::is_digit(data[i]) {
                i += 1;
                continue;
            }
            if i > 0 && CharacterClassifier::is_digit(data[i - 1]) {
                i += 1;
                continue;
            }
            assert(run_starts_at(data@, i as int));
            let start = i;
            let mut digit_count: usize = 0;
            while i < len && CharacterClassifier::is_digit(data[i])
                invariant
                    start < len,
                    start <= i <= len,
                    len == data@.len(),
                    digit_count == i - start,
                    run_end(data@, start as int) == run_end(data@, i as int),
                decreases len - i,
            {
                digit_count += 1;
                i += 1;
            }
            proof {
                lemma_run_end_bounds(data@, start as int);
            }
            if i < len && CharacterClassifier::is_digit(data[i]) {
                continue;
            }
            if digit_count < 10 || digit_count > 11 {
                assert(plain_kind(data@.subrange(start as int, i as int)) is None);
                continue;
            }
            let kind = Self::plain_kind_of(data, start, start + digit_count);
            if let Some(phone_type) = kind {
                let candidate = ascii_string(data, start, start + digit_count);
                let text_capacity = string_capacity(&candidate);
                let memory = Self::match_memory(text_capacity, None);
                let value = candidate.clone();
                let m = PhoneMatch::new(phone_type, value, candidate, start);
                let ghost v = data@.subrange(start as int, i as int);
                let ghost mv = match_view(phone_type, v, start as int);
                proof {
                    assert(all_digits(v));
                    lemma_digits_of_all_digits(v);
                }
                assert(m@ == mv);
                let ghost prev = matches@;
                let ghost prev_costs = costs@;
                matches.push(m);
                costs.push(memory);
                proof {
                    assert(memory == memory_cost(text_capacity, None));
                    assert(costs@ == prev_costs.push(memory));
                    assert(costs@.take(n0 as int) =~= prev_costs.take(n0 as int));
                }
                proof {
                    assert(views_of(matches@) =~= views_of(prev).push(mv));
                    assert(views_of(matches@).take(n0 as int) =~= views_of(prev).take(n0 as int));
                    assert(views_of(matches@).skip(n0 as int) =~= views_of(prev).skip(n0 as int).push(mv));
                    match plain_phase(data@, i as int, matches@.len()) {
                        Some(r) => {
                            assert(views_of(prev).skip(n0 as int) + (seq![mv] + r) =~= views_of(
                                prev,
                            ).skip(n0 as int).push(mv) + r);
                        },
                        None => {},
                    }
                }
            }
        }
        proof {
            assert(views_of(matches@).skip(n0 as int) + Seq::<PhoneMatchView>::empty() =~= views_of(
                matches@,
            ).skip(n0 as int));
        }
        true
    }

    /// Keeps the numbers of `matches` to report: none when the memory costs
    /// `costs` of the numbers, added up one by one, exceed the memory budget;
    /// otherwise the numbers ordered by position, without those that start
    /// before the end of a kept number or whose digits equal those of a kept
    /// number.
    pub fn select_matches(&self, matches: Vec<PhoneMatch>, costs: &Vec<usize>) -> (res: Vec<PhoneMatch>)
        requires
            costs@.len() == matches@.len(),
            forall|k: int| 0 <= k < matches@.len() ==> end_fits(#[trigger] matches@[k]),
        ensures
            views_of(res@) == select_spec(views_of(matches@), costs@),
    {
        proof {
            use_type_invariant(self);
        }
        // memory budget
        let mut estimated_memory: usize = 0;
        let mut k: usize = 0;
        proof {
            assert(costs@.skip(0) =~= costs@);
        }
        while k < costs.len()
            invariant
                k <= costs@.len(),
                self.max_memory_budget == MAX_MEMORY_BUDGET,
                budget_exceeded(costs@, 0) == budget_exceeded(costs@.skip(k as int), estimated_memory),
            decreases costs@.len() - k,
        {
            let new_memory = saturating_add(estimated_memory, costs[k]);
            assert(costs@.skip(k as int).drop_first() =~= costs@.skip(k + 1));
            if new_memory > self.max_memory_budget {
                return Vec::new();
            }
            estimated_memory = new_memory;
            k += 1;
        }
        // stable ordering by position
        let ghost orig = views_of(matches@);
        let ghost n = matches@.len();
        let mut pending = matches;
        let mut sorted: Vec<PhoneMatch> = Vec::new();
        proof {
            assert(orig.skip(n as int) =~= Seq::<PhoneMatchView>::empty());
            assert(views_of(sorted@) =~= Seq::<PhoneMatchView>::empty());
            assert(pending@ =~= matches@.take(n as int));
        }
        while pending.len() > 0
            invariant
                n == matches@.len(),
                orig == views_of(matches@),
                pending@.len() <= n,
                pending@ == matches@.take(pending@.len() as int),
                views_of(sorted@) == sort_by_position(orig.skip(pending@.len() as int)),
                forall|k: int| 0 <= k < matches@.len() ==> end_fits(#[trigger] matches@[k]),
                forall|k: int| 0 <= k < sorted@.len() ==> end_fits(#[trigger] sorted@[k]),
            decreases pending@.len(),
        {
            let ghost p = pending@.len() as int;
            let m = pending.pop().unwrap();
            assert(m == matches@[p - 1]);
            assert(end_fits(matches@[p - 1]));
            let mut j: usize = 0;
            while j < sorted.len() && sorted[j].position < m.position
                invariant
                    j <= sorted@.len(),
                    forall|t: int| 0 <= t < j ==> sorted@[t].position < m.position,
                decreases sorted@.len() - j,
            {
                j += 1;
            }
            let ghost before = sorted@;
            sorted.insert(j, m);
            proof {
                assert(pending@ =~= matches@.take(p - 1));
                let vs = views_of(before);
                assert forall|t: int| 0 <= t < j implies vs[t].position < m@.position by {}
                lemma_insert_by_position_at(vs, m@, j as int);
                assert(views_of(sorted@) =~= vs.insert(j as int, m@));
                assert(orig.skip(p - 1).drop_first() =~= orig.skip(p));
                assert(orig.skip(p - 1)[0] == m@);
                assert forall|k: int| 0 <= k < sorted@.len() implies end_fits(#[trigger] sorted@[k]) by {
                    if k < j {
                        assert(sorted@[k] == before[k]);
                    } else if k > j {
                        assert(sorted@[k] == before[k - 1]);
                    }
                }
            }
        }
        // keep numbers that do not overlap a kept one and have new digits
        let ghost sv = views_of(sorted@);
        proof {
            assert(orig.skip(0) =~= orig);
            assert(sv.skip(0) =~= sv);
        }
        let mut result: Vec<PhoneMatch> = Vec::new();
        let mut seen: Vec<String> = Vec::new();
        let ghost mut seen_set: Set<Seq<char>> = Set::empty();
        let mut last_end: usize = 0;
        let mut i: usize = 0;
        proof {
            assert(views_of(result@) + sv =~= sv);
        }
        while i < sorted.len()
            invariant
                i <= sorted@.len(),
                sv == views_of(sorted@),
                forall|k: int| 0 <= k < sorted@.len() ==> end_fits(#[trigger] sorted@[k]),
                forall|x: Seq<char>| seen_set.contains(x) <==> exists|k: int|
                    0 <= k < seen@.len() && seen@[k]@ == x,
                select_non_overlapping(sv, 0, Set::empty()) == views_of(result@)
                    + select_non_overlapping(sv.skip(i as int), last_end as int, seen_set),
            decreases sorted@.len() - i,
        {
            let m = &sorted[i];
            assert(sv.skip(i as int)[0] == m@);
            assert(sv.skip(i as int).drop_first() =~= sv.skip(i + 1));
            if m.position >= last_end {
                let found = contains_string(&seen, &m.normalized);
                if !found {
                    assert(end_fits(sorted@[i as int]));
                    let ghost prev_seen = seen@;
                    seen.push(m.normalized.clone());
                    proof {
                        let x = m.normalized@;
                        seen_set = seen_set.insert(x);
                        assert forall|y: Seq<char>| seen_set.contains(y) <==> exists|k: int|
                            0 <= k < seen@.len() && seen@[k]@ == y by {
                            if y == x {
                                assert(seen@[seen@.len() - 1]@ == x);
                            }
                            if exists|k: int| 0 <= k < seen@.len() && seen@[k]@ == y {
                                let k = choose|k: int| 0 <= k < seen@.len() && seen@[k]@ == y;
                                if k < prev_seen.len() {
                                    assert(prev_seen[k] == seen@[k]);
                                }
                            }
                            if exists|k: int| 0 <= k < prev_seen.len() && prev_seen[k]@ == y {
                                let k = choose|k: int| 0 <= k < prev_seen.len() && prev_seen[k]@ == y;
                                assert(seen@[k] == prev_seen[k]);
                            }
                        }
                    }
                    let value_len = m.value.as_str().len();
                    last_end = m.position + value_len;
                    let ghost prev = result@;
                    result.push(m.duplicate());
                    proof {
                        assert(views_of(result@) =~= views_of(prev).push(m@));
                        assert(views_of(prev) + (seq![m@] + select_non_overlapping(
                            sv.skip(i + 1),
                            last_end as int,
                            seen_set,
                        )) =~= views_of(result@) + select_non_overlapping(
                            sv.skip(i + 1),
                            last_end as int,
                            seen_set,
                        ));
                    }
                }
            }
            i += 1;
        }
        proof {
            assert(sv.skip(i as int) =~= Seq::<PhoneMatchView>::empty());
            assert(views_of(result@) + Seq::<PhoneMatchView>::empty() =~= views_of(result@));
        }
        result
    }

    /// The phone numbers in `text`, ordered by position, not overlapping one
    /// another and with distinct digits (see `extract_spec`). The result is
    /// empty for texts shorter than `MIN_DIGITS` or longer than
    /// `MAX_INPUT_SIZE` bytes, when more than `MAX_PHONES_EXTRACT` numbers are
    /// met, and when the memory estimated for the numbers found exceeds
    /// `MAX_MEMORY_BUDGET` (an estimate that depends on the allocator, which is
    /// why the first clause allows an empty result).
    pub fn extract(&self, text: &str) -> (res: Vec<PhoneMatch>)
        ensures
            extraction_of(text.spec_bytes(), res@),
    {
        proof {
            use_type_invariant(self);
        }
        let data = text.as_bytes();
        let len = data.len();
        if len > self.max_input_size || len < self.min_digits {
            return Vec::new();
        }
        let ghost s = data@;
        let mut matches: Vec<PhoneMatch> = Vec::with_capacity(20);
        let mut costs: Vec<usize> = Vec::new();
        let mut limiter = OperationLimiter::new(self.max_operations);
        let mut batch = BatchState::new();
        if !self.scan_international(data, &mut matches, &mut costs, &mut limiter, &mut batch) {
            limiter.flush(&batch);
            return Vec::new();
        }
        let ghost m1 = matches@;
        if !self.scan_formatted_numbers(data, &mut matches, &mut costs, &mut limiter, &mut batch) {
            limiter.flush(&batch);
            return Vec::new();
        }
        let ghost m2 = matches@;
        if !self.scan_plain_digits(data, &mut matches, &mut costs, &mut limiter, &mut batch) {
            limiter.flush(&batch);
            return Vec::new();
        }
        limiter.flush(&batch);
        let ghost raw = views_of(matches@);
        proof {
            let a = views_of(m1);
            let b = views_of(m2).skip(m1.len() as int);
            let c = raw.skip(m2.len() as int);
            assert(views_of(m1).skip(0) =~= a);
            assert(views_of(m2) =~= views_of(m2).take(m1.len() as int) + b);
            assert(raw =~= raw.take(m2.len() as int) + c);
            assert(raw_matches(s) == Some(a + b + c));
            assert(a + b + c =~= raw);
            assert(raw_matches(s) == Some(raw));
            lemma_raw_matches_read_from(s, raw);
            assert forall|k: int| 0 <= k < matches@.len() implies end_fits(#[trigger] matches@[k]) by {
                assert(raw[k] == matches@[k]@);
                assert(read_from(s, raw[k]));
                lemma_phone_value_utf8_len(matches@[k].value@);
            }
        }
        if matches.len() == 0 {
            assert(sort_by_position(raw) =~= raw);
            return matches;
        }
        let res = self.select_matches(matches, &costs);
        proof {
            let sorted = sort_by_position(raw);
            lemma_sort_by_position_members(raw);
            lemma_select_non_overlapping(sorted, 0, Set::empty());
            let r = views_of(res@);
            if !budget_exceeded(costs@, 0) {
                assert(r == select_non_overlapping(sorted, 0, Set::empty()));
                assert forall|k: int| 0 <= k < res@.len() implies read_from(s, #[trigger] res@[k]@) by {
                    assert(r[k] == res@[k]@);
                    assert(r.contains(r[k]));
                    assert(raw.contains(r[k]));
                }
                assert forall|j: int, k: int|
                    #![trigger res@[j], res@[k]]
                    0 <= j < k < res@.len() implies res@[j].position + res@[j].value@.len()
                        <= res@[k].position by {
                    assert(r[j] == res@[j]@);
                    assert(r[k] == res@[k]@);
                    assert(r.contains(r[j]));
                    assert(raw.contains(r[j]));
                    lemma_phone_value_utf8_len(res@[j].value@);
                }
                assert forall|j: int, k: int|
                    #![trigger res@[j], res@[k]]
                    0 <= j < k < res@.len() implies res@[j].position < res@[k].position by {
                    assert(r[j] == res@[j]@);
                    assert(r.contains(r[j]));
                    assert(raw.contains(r[j]));
                    assert(read_from(s, res@[j]@));
                    lemma_digit_chars_len(res@[j].value@);
                    lemma_phone_value_utf8_len(res@[j].value@);
                }
                assert forall|j: int, k: int|
                    #![trigger res@[j], res@[k]]
                    0 <= j < k < res@.len() implies res@[j].normalized@ != res@[k].normalized@ by {
                    assert(r[j] == res@[j]@);
                    assert(r[k] == res@[k]@);
                }
            }
        }
        res
    }
}

} // verus!
