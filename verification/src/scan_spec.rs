//! What the scanner finds in a text, stated over the text's bytes.
//!
//! Each kind of number is recognised by a left-to-right walk from a starting
//! byte; the walks are stated as the recursive functions `*_extent` and
//! `*_count`, each step of which reads one byte.
use vstd::prelude::*;
use crate::classifier::{is_digit_byte, is_separator_byte, is_paren_byte};
use crate::text::{chars_of, digits_of, lemma_digits_of_concat};
use crate::types::{PhoneType, PhoneMatchView};

verus! {

/// Longest accepted input, in bytes.
pub const MAX_INPUT_SIZE: usize = 10485760;

/// Longest phone number, in bytes, that a walk reads.
pub const MAX_PHONE_LENGTH: usize = 30;

/// Fewest digits of a phone number (and shortest accepted input).
pub const MIN_DIGITS: usize = 7;

/// Most digits of an international phone number.
pub const MAX_DIGITS: usize = 15;

/// Most scanning steps spent on one input.
pub const MAX_OPERATIONS: usize = 100000000;

/// Most phone numbers collected from one input.
pub const MAX_PHONES_EXTRACT: usize = 10000;

/// Most memory, in bytes, that the collected phone numbers may take.
pub const MAX_MEMORY_BUDGET: usize = 5242880;

/// The match of kind `kind` whose text is `value` and which starts at `position`.
pub open spec fn match_view(kind: PhoneType, value: Seq<u8>, position: int) -> PhoneMatchView {
    PhoneMatchView {
        phone_type: kind,
        value: chars_of(value),
        normalized: chars_of(digits_of(value)),
        position: position as nat,
    }
}

/// `m` followed by the matches of `rest`, if `rest` did not fail.
pub open spec fn prepend(m: PhoneMatchView, rest: Option<Seq<PhoneMatchView>>) -> Option<
    Seq<PhoneMatchView>,
> {
    match rest {
        Some(r) => Some(seq![m] + r),
        None => None,
    }
}

// ---------------------------------------------------------------------------
// International numbers: `+` and a digit, then digits, separators and
// parentheses.
// ---------------------------------------------------------------------------
/// Where the walk over an international number that starts at `start` stops,
/// when it is at `i` and has read `dc` digits. A separator or `(` is taken
/// only after a digit and before a digit or `(`; a `)` only after a digit.
pub open spec fn intl_extent(s: Seq<u8>, start: int, i: int, dc: nat) -> int
    decreases s.len() - i,
{
    if 0 <= i < s.len() && i - start < MAX_PHONE_LENGTH {
        let c = s[i];
        if is_digit_byte(c) {
            intl_extent(s, start, i + 1, dc + 1)
        } else if (is_separator_byte(c) || c == 40) && dc > 0 && i + 1 < s.len() && (is_digit_byte(
            s[i + 1],
        ) || s[i + 1] == 40) {
            intl_extent(s, start, i + 1, dc)
        } else if c == 41 && dc > 0 {
            intl_extent(s, start, i + 1, dc)
        } else {
            i
        }
    } else {
        i
    }
}

/// The international walk stops between its current byte and the end.
pub proof fn lemma_intl_extent_bounds(s: Seq<u8>, start: int, i: int, dc: nat)
    requires
        0 <= i <= s.len(),
    ensures
        i <= intl_extent(s, start, i, dc) <= s.len(),
        i <= start + MAX_PHONE_LENGTH ==> intl_extent(s, start, i, dc) <= start + MAX_PHONE_LENGTH,
    decreases s.len() - i,
{
    if 0 <= i < s.len() && i - start < MAX_PHONE_LENGTH {
        lemma_intl_extent_bounds(s, start, i + 1, dc + 1);
        lemma_intl_extent_bounds(s, start, i + 1, dc);
    }
}

/// The international number that starts at `i`, and where it ends: a `+`
/// followed by a digit, whose walk reads between `MIN_DIGITS` and
/// `MAX_DIGITS` digits.
pub open spec fn intl_match_at(s: Seq<u8>, i: int) -> Option<(PhoneMatchView, int)> {
    if 0 <= i && i + 1 < s.len() && s[i] == 43 && is_digit_byte(s[i + 1]) {
        let end = intl_extent(s, i, i + 1, 0);
        let d = digits_of(s.subrange(i, end));
        if MIN_DIGITS <= d.len() <= MAX_DIGITS {
            Some((match_view(PhoneType::InternationalPlus, s.subrange(i, end), i), end))
        } else {
            None
        }
    } else {
        None
    }
}

/// The international numbers found from `i` on, after `n` numbers were found
/// before; `None` when a step starts with `MAX_PHONES_EXTRACT` numbers found.
pub open spec fn intl_phase(s: Seq<u8>, i: int, n: nat) -> Option<Seq<PhoneMatchView>>
    decreases s.len() - i,
{
    if i < 0 || i >= s.len() {
        Some(Seq::empty())
    } else if n >= MAX_PHONES_EXTRACT {
        None
    } else {
        match intl_match_at(s, i) {
            Some((m, end)) => {
                proof {
                    lemma_intl_extent_bounds(s, i, i + 1, 0);
                }
                prepend(m, intl_phase(s, end, n + 1))
            },
            None => intl_phase(s, i + 1, n),
        }
    }
}

// ---------------------------------------------------------------------------
// Formatted numbers: `(ddd) ddd-dddd`, or digit groups joined by separators.
// ---------------------------------------------------------------------------
/// Where the walk after `(ddd)` and a space or dash stops, when it is at `end`
/// and has read `dc` digits: it takes seven digits, with separators between
/// them.
pub open spec fn paren_extent(s: Seq<u8>, i: int, end: int, dc: nat) -> int
    decreases s.len() - end,
{
    if 0 <= end < s.len() && dc < 7 && end - i < MAX_PHONE_LENGTH {
        if is_digit_byte(s[end]) {
            paren_extent(s, i, end + 1, dc + 1)
        } else if is_separator_byte(s[end]) && dc > 0 && dc < 7 {
            paren_extent(s, i, end + 1, dc)
        } else {
            end
        }
    } else {
        end
    }
}

/// The walk after `(ddd)` stops between its current byte and the end.
pub proof fn lemma_paren_extent_bounds(s: Seq<u8>, i: int, end: int, dc: nat)
    requires
        0 <= end <= s.len(),
    ensures
        end <= paren_extent(s, i, end, dc) <= s.len(),
        end <= i + MAX_PHONE_LENGTH ==> paren_extent(s, i, end, dc) <= i + MAX_PHONE_LENGTH,
    decreases s.len() - end,
{
    if 0 <= end < s.len() && dc < 7 && end - i < MAX_PHONE_LENGTH {
        lemma_paren_extent_bounds(s, i, end + 1, dc + 1);
        lemma_paren_extent_bounds(s, i, end + 1, dc);
    }
}

/// The text reported for `(ddd)` numbers: the bytes read, with the byte after
/// `)` written as a space.
pub open spec fn paren_value(s: Seq<u8>, i: int, end: int) -> Seq<u8> {
    s.subrange(i, end).update(5, 32)
}

/// Whether `(ddd)` followed by a space or dash starts at `i`, with room for a
/// whole number after it.
pub open spec fn paren_prefix_at(s: Seq<u8>, i: int) -> bool {
    &&& 0 <= i
    &&& i + 14 <= s.len()
    &&& s[i] == 40
    &&& is_digit_byte(s[i + 1])
    &&& is_digit_byte(s[i + 2])
    &&& is_digit_byte(s[i + 3])
    &&& s[i + 4] == 41
    &&& (s[i + 5] == 32 || s[i + 5] == 45)
}

/// The `(ddd) ddd-dddd` number that starts at `i`: ten digits, the first not
/// `0` and the fourth at least `2`.
pub open spec fn paren_match_at(s: Seq<u8>, i: int) -> Option<(PhoneMatchView, int)> {
    if paren_prefix_at(s, i) {
        let end = paren_extent(s, i, i + 6, 0);
        let d = digits_of(s.subrange(i, end));
        if d.len() == 10 && d[0] != 48 && d[3] >= 50 {
            Some((match_view(PhoneType::FormattedDomestic, paren_value(s, i, end), i), end))
        } else {
            None
        }
    } else {
        None
    }
}

/// Where the walk over digit groups that starts at `start` stops, when it is
/// at `i`, has read `dc` digits, keeps `sep` as the separator in use (`0`
/// before the first) and `has` tells whether a separator was taken. A
/// separator is taken between digits while fewer than eleven digits were read,
/// if it is the one in use, or a space, or the one in use is a space; the
/// separator in use becomes the one taken, except that a space does not
/// replace another separator.
pub open spec fn dash_extent(s: Seq<u8>, start: int, i: int, dc: nat, sep: u8, has: bool) -> (
    int,
    u8,
    bool,
)
    decreases s.len() - i,
{
    if 0 <= i < s.len() && i - start < MAX_PHONE_LENGTH {
        let c = s[i];
        if is_digit_byte(c) {
            dash_extent(s, start, i + 1, dc + 1, sep, has)
        } else if is_separator_byte(c) && dc > 0 && dc < 11 && i + 1 < s.len() && is_digit_byte(
            s[i + 1],
        ) {
            let sep1: u8 = if sep == 0 {
                c
            } else {
                sep
            };
            if c == sep1 || c == 32 || sep1 == 32 {
                let sep2: u8 = if sep1 != 32 && c == 32 {
                    sep1
                } else {
                    c
                };
                dash_extent(s, start, i + 1, dc, sep2, true)
            } else {
                (i, sep1, has)
            }
        } else {
            (i, sep, has)
        }
    } else {
        (i, sep, has)
    }
}

/// The walk over digit groups stops between its current byte and the end.
pub proof fn lemma_dash_extent_bounds(
    s: Seq<u8>,
    start: int,
    i: int,
    dc: nat,
    sep: u8,
    has: bool,
)
    requires
        0 <= i <= s.len(),
    ensures
        i <= dash_extent(s, start, i, dc, sep, has).0 <= s.len(),
        i <= start + MAX_PHONE_LENGTH ==> dash_extent(s, start, i, dc, sep, has).0 <= start
            + MAX_PHONE_LENGTH,
    decreases s.len() - i,
{
    if 0 <= i < s.len() && i - start < MAX_PHONE_LENGTH {
        let c = s[i];
        let sep1: u8 = if sep == 0 {
            c
        } else {
            sep
        };
        let sep2: u8 = if sep1 != 32 && c == 32 {
            sep1
        } else {
            c
        };
        lemma_dash_extent_bounds(s, start, i + 1, dc + 1, sep, has);
        lemma_dash_extent_bounds(s, start, i + 1, dc, sep2, true);
    }
}

/// The kind of a number of separated digit groups with digits `d` and
/// separator `sep`: ten digits make a mobile number when spaced and starting
/// with `1`..`9`, else a domestic one when the first digit is not `0` and the
/// fourth at least `2`; eleven digits starting with `1` and then not `0` make
/// a toll-free number.
pub open spec fn dash_kind(d: Seq<u8>, sep: u8) -> Option<PhoneType> {
    if d.len() == 10 {
        if sep == 32 && 49 <= d[0] <= 57 {
            Some(PhoneType::Mobile10Digit)
        } else if d[0] != 48 && d[3] >= 50 {
            Some(PhoneType::FormattedDomestic)
        } else {
            None
        }
    } else if d.len() == 11 && d[0] == 49 && d[1] != 48 {
        Some(PhoneType::FormattedTollFree)
    } else {
        None
    }
}

/// The number of separated digit groups that starts at `i`: its first digit
/// does not follow a digit, and at least one separator was taken.
pub open spec fn dash_match_at(s: Seq<u8>, i: int) -> Option<(PhoneMatchView, int)> {
    if 0 <= i < s.len() && is_digit_byte(s[i]) && (i == 0 || !is_digit_byte(s[i - 1])) {
        let (end, sep, has) = dash_extent(s, i, i, 0, 0, false);
        let d = digits_of(s.subrange(i, end));
        if has {
            match dash_kind(d, sep) {
                Some(kind) => Some((match_view(kind, s.subrange(i, end), i), end)),
                None => None,
            }
        } else {
            None
        }
    } else {
        None
    }
}

/// The formatted numbers found from `i` on, after `n` numbers were found before.
pub open spec fn formatted_phase(s: Seq<u8>, i: int, n: nat) -> Option<Seq<PhoneMatchView>>
    decreases s.len() - i,
{
    if i < 0 || i >= s.len() {
        Some(Seq::empty())
    } else if n >= MAX_PHONES_EXTRACT {
        None
    } else {
        match paren_match_at(s, i) {
            Some((m, end)) => {
                proof {
                    lemma_paren_extent_bounds(s, i, i + 6, 0);
                }
                prepend(m, formatted_phase(s, end, n + 1))
            },
            None => match dash_match_at(s, i) {
                Some((m, end)) => {
                    proof {
                        lemma_dash_extent_bounds(s, i, i, 0, 0, false);
                        lemma_dash_first_step(s, i);
                    }
                    prepend(m, formatted_phase(s, end, n + 1))
                },
                None => formatted_phase(s, i + 1, n),
            },
        }
    }
}

/// A walk over digit groups that starts at a digit moves past it.
pub proof fn lemma_dash_first_step(s: Seq<u8>, i: int)
    requires
        0 <= i < s.len(),
        is_digit_byte(s[i]),
    ensures
        dash_extent(s, i, i, 0, 0, false) == dash_extent(s, i, i + 1, 1, 0, false),
        i + 1 <= dash_extent(s, i, i, 0, 0, false).0,
{
    lemma_dash_extent_bounds(s, i, i + 1, 1, 0, false);
}

// ---------------------------------------------------------------------------
// Plain numbers: a run of ten or eleven digits.
// ---------------------------------------------------------------------------
/// The end of the run of digits that starts at `i`.
pub open spec fn run_end(s: Seq<u8>, i: int) -> int
    decreases s.len() - i,
{
    if 0 <= i < s.len() && is_digit_byte(s[i]) {
        run_end(s, i + 1)
    } else {
        i
    }
}

/// A run of digits ends between its start and the end of the text.
pub proof fn lemma_run_end_bounds(s: Seq<u8>, i: int)
    requires
        0 <= i <= s.len(),
    ensures
        i <= run_end(s, i) <= s.len(),
        forall|k: int| i <= k < run_end(s, i) ==> is_digit_byte(#[trigger] s[k]),
        run_end(s, i) < s.len() ==> !is_digit_byte(s[run_end(s, i)]),
    decreases s.len() - i,
{
    if 0 <= i < s.len() && is_digit_byte(s[i]) {
        lemma_run_end_bounds(s, i + 1);
    }
}

/// The kind of a run `v` of digits: ten digits starting with `6`..`9` or `1`
/// make a mobile number, starting with `2`..`5` with a fourth digit of at
/// least `2` a plain ten-digit one; eleven digits starting with `1` and then
/// not `0` a plain eleven-digit one.
pub open spec fn plain_kind(v: Seq<u8>) -> Option<PhoneType> {
    if v.len() == 10 {
        if 54 <= v[0] <= 57 {
            Some(PhoneType::Mobile10Digit)
        } else if 50 <= v[0] <= 53 && v[3] >= 50 {
            Some(PhoneType::Plain10Digit)
        } else if v[0] == 49 {
            Some(PhoneType::Mobile10Digit)
        } else {
            None
        }
    } else if v.len() == 11 && v[0] == 49 && v[1] != 48 {
        Some(PhoneType::Plain11Digit)
    } else {
        None
    }
}

/// Whether a run of digits starts at `i`.
pub open spec fn run_starts_at(s: Seq<u8>, i: int) -> bool {
    0 <= i < s.len() && is_digit_byte(s[i]) && (i == 0 || !is_digit_byte(s[i - 1]))
}

/// The plain numbers found from `i` on, after `n` numbers were found before.
pub open spec fn plain_phase(s: Seq<u8>, i: int, n: nat) -> Option<Seq<PhoneMatchView>>
    decreases s.len() - i,
{
    if i < 0 || i >= s.len() {
        Some(Seq::empty())
    } else if n >= MAX_PHONES_EXTRACT {
        None
    } else if !run_starts_at(s, i) {
        plain_phase(s, i + 1, n)
    } else {
        let end = run_end(s, i);
        proof {
            lemma_run_end_bounds(s, i + 1);
        }
        match plain_kind(s.subrange(i, end)) {
            Some(kind) => prepend(match_view(kind, s.subrange(i, end), i), plain_phase(s, end, n + 1)),
            None => plain_phase(s, end, n),
        }
    }
}

// ---------------------------------------------------------------------------
// All numbers, ordered and without overlaps or repeats.
// ---------------------------------------------------------------------------
/// The numbers found by the three walks over the whole text, in the order
/// international, formatted, plain; `None` when more than the collection
/// limit allows were met.
pub open spec fn raw_matches(s: Seq<u8>) -> Option<Seq<PhoneMatchView>> {
    match intl_phase(s, 0, 0) {
        None => None,
        Some(a) => match formatted_phase(s, 0, a.len()) {
            None => None,
            Some(b) => match plain_phase(s, 0, a.len() + b.len()) {
                None => None,
                Some(c) => Some(a + b + c),
            },
        },
    }
}

/// `sorted` with `m` inserted before the first element whose position is at
/// least that of `m`.
pub open spec fn insert_by_position(sorted: Seq<PhoneMatchView>, m: PhoneMatchView) -> Seq<
    PhoneMatchView,
>
    decreases sorted.len(),
{
    if sorted.len() == 0 {
        seq![m]
    } else if m.position <= sorted[0].position {
        seq![m] + sorted
    } else {
        seq![sorted[0]] + insert_by_position(sorted.drop_first(), m)
    }
}

/// `s` ordered by position; elements at equal positions keep their order.
pub open spec fn sort_by_position(s: Seq<PhoneMatchView>) -> Seq<PhoneMatchView>
    decreases s.len(),
{
    if s.len() == 0 {
        s
    } else {
        insert_by_position(sort_by_position(s.drop_first()), s[0])
    }
}

/// The matches of `s` kept in order: a match is kept when it starts at or after
/// `last_end` (the end of the last kept match) and its digits are not in
/// `seen` (the digits of the kept matches).
pub open spec fn select_non_overlapping(
    s: Seq<PhoneMatchView>,
    last_end: int,
    seen: Set<Seq<char>>,
) -> Seq<PhoneMatchView>
    decreases s.len(),
{
    if s.len() == 0 {
        Seq::empty()
    } else {
        let m = s[0];
        if m.position >= last_end && !seen.contains(m.normalized) {
            seq![m] + select_non_overlapping(
                s.drop_first(),
                (m.position + vstd::utf8::encode_utf8(m.value).len()) as int,
                seen.insert(m.normalized),
            )
        } else {
            select_non_overlapping(s.drop_first(), last_end, seen)
        }
    }
}

/// The phone numbers of text `s`, unless the memory budget is exceeded.
pub open spec fn extract_spec(s: Seq<u8>) -> Seq<PhoneMatchView> {
    if s.len() > MAX_INPUT_SIZE || s.len() < MIN_DIGITS {
        Seq::empty()
    } else {
        match raw_matches(s) {
            None => Seq::empty(),
            Some(r) => select_non_overlapping(sort_by_position(r), 0, Set::empty()),
        }
    }
}

/// Whether adding `costs` one by one to `acc`, saturating, passes the memory
/// budget at some point.
pub open spec fn budget_exceeded(costs: Seq<usize>, acc: usize) -> bool
    decreases costs.len(),
{
    if costs.len() == 0 {
        false
    } else {
        let next = crate::safe_arithmetic::spec_saturating_add(acc, costs[0]);
        next > MAX_MEMORY_BUDGET || budget_exceeded(costs.drop_first(), next)
    }
}

/// The matches kept of `matches`, whose memory costs are `costs`.
pub open spec fn select_spec(matches: Seq<PhoneMatchView>, costs: Seq<usize>) -> Seq<
    PhoneMatchView,
> {
    if budget_exceeded(costs, 0) {
        Seq::empty()
    } else {
        select_non_overlapping(sort_by_position(matches), 0, Set::empty())
    }
}

// ---------------------------------------------------------------------------
// Whether a text holds a phone number at all.
// ---------------------------------------------------------------------------
/// The digits read by the walk over an international number that starts at
/// `start`, when it is at `j` and has read `dc` digits: separators are taken
/// between a digit and a digit, parentheses after a digit.
pub open spec fn intl_digit_count(s: Seq<u8>, start: int, j: int, dc: nat) -> nat
    decreases s.len() - j,
{
    if 0 <= j < s.len() && j < start + MAX_PHONE_LENGTH {
        let c = s[j];
        if is_digit_byte(c) {
            intl_digit_count(s, start, j + 1, dc + 1)
        } else if is_separator_byte(c) && dc > 0 && j + 1 < s.len() && is_digit_byte(s[j + 1]) {
            intl_digit_count(s, start, j + 1, dc)
        } else if is_paren_byte(c) && dc > 0 {
            intl_digit_count(s, start, j + 1, dc)
        } else {
            dc
        }
    } else {
        dc
    }
}

/// An international number starts at `i`.
pub open spec fn intl_hit(s: Seq<u8>, i: int) -> bool {
    &&& 0 <= i
    &&& i + 1 < s.len()
    &&& s[i] == 43
    &&& is_digit_byte(s[i + 1])
    &&& MIN_DIGITS <= intl_digit_count(s, i, i + 1, 0) <= MAX_DIGITS
}

/// The digits read after `(ddd)` and a space or dash, when at `end` with `dc`
/// digits read: up to seven digits, with separators between them.
pub open spec fn paren_digit_count(s: Seq<u8>, end: int, dc: nat) -> nat
    decreases s.len() - end,
{
    if 0 <= end < s.len() && dc < 7 {
        if is_digit_byte(s[end]) {
            paren_digit_count(s, end + 1, dc + 1)
        } else if is_separator_byte(s[end]) && dc > 0 && dc < 7 {
            paren_digit_count(s, end + 1, dc)
        } else {
            dc
        }
    } else {
        dc
    }
}

/// A `(ddd) ddd-dddd` number whose first digit is not `0` starts at `i`.
pub open spec fn paren_hit(s: Seq<u8>, i: int) -> bool {
    paren_prefix_at(s, i) && paren_digit_count(s, i + 6, 0) == 7 && s[i + 1] != 48
}

/// The digits read, and whether a separator was taken, by the walk over digit
/// groups that starts at `start`, when at `j` with `dc` digits read and
/// separator `sep` in use (`0` before the first): a separator is taken between
/// digits while fewer than eleven were read, if it is the one in use or a
/// space.
pub open spec fn group_count(s: Seq<u8>, start: int, j: int, dc: nat, sep: u8, has: bool) -> (
    nat,
    bool,
)
    decreases s.len() - j,
{
    if 0 <= j < s.len() && j < start + MAX_PHONE_LENGTH {
        let c = s[j];
        if is_digit_byte(c) {
            group_count(s, start, j + 1, dc + 1, sep, has)
        } else if is_separator_byte(c) && dc > 0 && dc < 11 && j + 1 < s.len() && is_digit_byte(
            s[j + 1],
        ) {
            let sep1: u8 = if sep == 0 {
                c
            } else {
                sep
            };
            if c == sep1 || c == 32 {
                group_count(s, start, j + 1, dc, sep1, true)
            } else {
                (dc, has)
            }
        } else {
            (dc, has)
        }
    } else {
        (dc, has)
    }
}

/// Separated digit groups starting at `i` form a number: ten digits not
/// starting with `0`, or eleven starting with `1`.
pub open spec fn group_hit(s: Seq<u8>, i: int) -> bool {
    run_starts_at(s, i) && {
        let (dc, has) = group_count(s, i, i, 0, 0, false);
        has && ((dc == 10 && s[i] != 48) || (dc == 11 && s[i] == 49))
    }
}

/// A run of ten digits not starting with `0`, or of eleven starting with `1`
/// and then not `0`, starts at `i`.
pub open spec fn plain_hit(s: Seq<u8>, i: int) -> bool {
    run_starts_at(s, i) && {
        let n = run_end(s, i) - i;
        (n == 10 && 49 <= s[i] <= 57) || (n == 11 && s[i] == 49 && s[i + 1] != 48)
    }
}

/// Whether the scanner reports that text `s` holds a phone number.
pub open spec fn contains_spec(s: Seq<u8>) -> bool {
    &&& MIN_DIGITS <= s.len() <= MAX_INPUT_SIZE
    &&& {
        ||| exists|i: int| intl_hit(s, i)
        ||| exists|i: int| paren_hit(s, i) || group_hit(s, i)
        ||| exists|i: int| plain_hit(s, i)
    }
}

/// The digits of the text reported for a `(ddd)` number are those of the
/// bytes read.
pub proof fn lemma_paren_value_digits(s: Seq<u8>, i: int, end: int)
    requires
        paren_prefix_at(s, i),
        i + 6 <= end <= s.len(),
    ensures
        digits_of(paren_value(s, i, end)) == digits_of(s.subrange(i, end)),
{
    let x = s.subrange(i, end);
    let a = x.take(5);
    let b = x.skip(6);
    assert(x =~= a + seq![x[5]] + b);
    assert(x.update(5, 32) =~= a + seq![32u8] + b);
    lemma_digits_of_concat(a + seq![x[5]], b);
    lemma_digits_of_concat(a, seq![x[5]]);
    lemma_digits_of_concat(a + seq![32u8], b);
    lemma_digits_of_concat(a, seq![32u8]);
    assert(seq![x[5]].drop_last() =~= Seq::<u8>::empty());
    assert(seq![32u8].drop_last() =~= Seq::<u8>::empty());
    assert(x[5] == s[i + 5]);
    assert(seq![x[5]].last() == x[5]);
    assert(!is_digit_byte(x[5]));
    assert(digits_of(seq![x[5]]) == digits_of(seq![x[5]].drop_last()));
    assert(digits_of(seq![x[5]]) =~= Seq::<u8>::empty());
    assert(digits_of(seq![32u8]) == digits_of(seq![32u8].drop_last()));
    assert(digits_of(seq![32u8]) =~= Seq::<u8>::empty());
}

/// The characters of the text reported for a `(ddd)` number: those of the
/// first five bytes, a space, and those of the bytes after the sixth.
pub proof fn lemma_paren_value_chars(s: Seq<u8>, i: int, end: int)
    requires
        0 <= i,
        i + 6 <= end <= s.len(),
    ensures
        chars_of(paren_value(s, i, end)) == chars_of(s.subrange(i, i + 5)) + seq![' '] + chars_of(
            s.subrange(i + 6, end),
        ),
{
    assert(chars_of(paren_value(s, i, end)) =~= chars_of(s.subrange(i, i + 5)) + seq![' ']
        + chars_of(s.subrange(i + 6, end)));
}

/// Inserting by position places `m` before the first element whose position
/// is at least that of `m`.
pub proof fn lemma_insert_by_position_at(sorted: Seq<PhoneMatchView>, m: PhoneMatchView, j: int)
    requires
        0 <= j <= sorted.len(),
        forall|t: int| 0 <= t < j ==> sorted[t].position < m.position,
        j < sorted.len() ==> m.position <= sorted[j].position,
    ensures
        insert_by_position(sorted, m) == sorted.insert(j, m),
    decreases sorted.len(),
{
    if sorted.len() == 0 {
        assert(sorted.insert(j, m) =~= seq![m]);
    } else if j == 0 {
        assert(sorted.insert(j, m) =~= seq![m] + sorted);
    } else {
        let rest = sorted.drop_first();
        assert forall|t: int| 0 <= t < j - 1 implies rest[t].position < m.position by {
            assert(rest[t] == sorted[t + 1]);
        }
        lemma_insert_by_position_at(rest, m, j - 1);
        assert(sorted.insert(j, m) =~= seq![sorted[0]] + rest.insert(j - 1, m));
    }
}

} // verus!
