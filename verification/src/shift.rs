//! What the scanner finds in a text with one byte put in front of it: the
//! same numbers, one position further on, when that byte cannot start or
//! continue a number.
use vstd::prelude::*;
use crate::classifier::is_digit_byte;
use crate::scan_spec::{
    MAX_PHONES_EXTRACT, intl_extent, paren_extent, dash_extent, run_end, intl_match_at,
    paren_match_at, dash_match_at, paren_prefix_at, paren_value, run_starts_at, match_view, prepend,
    intl_phase, formatted_phase, plain_phase, lemma_intl_extent_bounds, lemma_paren_extent_bounds,
    lemma_dash_extent_bounds, lemma_dash_first_step, lemma_run_end_bounds, plain_kind, raw_matches,
    insert_by_position, sort_by_position, select_non_overlapping,
};
use crate::types::PhoneMatchView;

verus! {

/// A byte that cannot start a number nor be part of one that starts after
/// it: not a digit, not `+` and not `(`.
pub open spec fn inert_byte(b: u8) -> bool {
    !is_digit_byte(b) && b != 43 && b != 40
}

/// `m` one position further on.
pub open spec fn shifted(m: PhoneMatchView) -> PhoneMatchView {
    PhoneMatchView {
        phone_type: m.phone_type,
        value: m.value,
        normalized: m.normalized,
        position: m.position + 1,
    }
}

/// Every match of `r` one position further on.
pub open spec fn shifted_all(r: Seq<PhoneMatchView>) -> Seq<PhoneMatchView> {
    r.map_values(|m: PhoneMatchView| shifted(m))
}

/// `shifted_all` of a result, if there is one.
pub open spec fn shifted_opt(r: Option<Seq<PhoneMatchView>>) -> Option<Seq<PhoneMatchView>> {
    match r {
        Some(x) => Some(shifted_all(x)),
        None => None,
    }
}

/// A match found at a place, and where it ends, one position further on.
pub open spec fn shifted_found(r: Option<(PhoneMatchView, int)>) -> Option<(PhoneMatchView, int)> {
    match r {
        Some((m, end)) => Some((shifted(m), end + 1)),
        None => None,
    }
}

/// Putting a match in front commutes with shifting.
proof fn lemma_shift_prepend(m: PhoneMatchView, r: Option<Seq<PhoneMatchView>>)
    ensures
        prepend(shifted(m), shifted_opt(r)) == shifted_opt(prepend(m, r)),
{
    if let Some(x) = r {
        assert(seq![shifted(m)] + shifted_all(x) =~= shifted_all(seq![m] + x));
    }
}

/// The international walk reads the same in `b + t` one byte further on.
proof fn lemma_intl_extent_shift(b: u8, t: Seq<u8>, start: int, i: int, dc: nat)
    requires
        0 <= i <= t.len(),
    ensures
        intl_extent(seq![b] + t, start + 1, i + 1, dc) == intl_extent(t, start, i, dc) + 1,
    decreases t.len() - i,
{
    let u = seq![b] + t;
    if i < t.len() {
        assert(u[i + 1] == t[i]);
        if i + 1 < t.len() {
            assert(u[i + 2] == t[i + 1]);
        }
        lemma_intl_extent_shift(b, t, start, i + 1, dc + 1);
        lemma_intl_extent_shift(b, t, start, i + 1, dc);
    }
}

/// The walk after `(ddd)` reads the same in `b + t` one byte further on.
proof fn lemma_paren_extent_shift(b: u8, t: Seq<u8>, i: int, end: int, dc: nat)
    requires
        0 <= end <= t.len(),
    ensures
        paren_extent(seq![b] + t, i + 1, end + 1, dc) == paren_extent(t, i, end, dc) + 1,
    decreases t.len() - end,
{
    let u = seq![b] + t;
    if end < t.len() {
        assert(u[end + 1] == t[end]);
        lemma_paren_extent_shift(b, t, i, end + 1, dc + 1);
        lemma_paren_extent_shift(b, t, i, end + 1, dc);
    }
}

/// The walk over digit groups reads the same in `b + t` one byte further on.
proof fn lemma_dash_extent_shift(
    b: u8,
    t: Seq<u8>,
    start: int,
    i: int,
    dc: nat,
    sep: u8,
    has: bool,
)
    requires
        0 <= i <= t.len(),
    ensures
        ({
            let (e, sep2, has2) = dash_extent(t, start, i, dc, sep, has);
            dash_extent(seq![b] + t, start + 1, i + 1, dc, sep, has) == (e + 1, sep2, has2)
        }),
    decreases t.len() - i,
{
    let u = seq![b] + t;
    if i < t.len() {
        let c = t[i];
        assert(u[i + 1] == c);
        if i + 1 < t.len() {
            assert(u[i + 2] == t[i + 1]);
        }
        let sep1: u8 = if sep == 0 {
            c
        } else {
            sep
        };
        let sep2: u8 = if sep1 != 32 && c == 32 {
            sep1
        } else {
            c
        };
        lemma_dash_extent_shift(b, t, start, i + 1, dc + 1, sep, has);
        lemma_dash_extent_shift(b, t, start, i + 1, dc, sep2, true);
    }
}

/// A run of digits reads the same in `b + t` one byte further on.
proof fn lemma_run_end_shift(b: u8, t: Seq<u8>, i: int)
    requires
        0 <= i <= t.len(),
    ensures
        run_end(seq![b] + t, i + 1) == run_end(t, i) + 1,
    decreases t.len() - i,
{
    let u = seq![b] + t;
    if i < t.len() {
        assert(u[i + 1] == t[i]);
        lemma_run_end_shift(b, t, i + 1);
    }
}

/// A part of `t` is the same part of `b + t` one byte further on.
proof fn lemma_subrange_shift(b: u8, t: Seq<u8>, i: int, j: int)
    requires
        0 <= i <= j <= t.len(),
    ensures
        (seq![b] + t).subrange(i + 1, j + 1) == t.subrange(i, j),
{
    assert((seq![b] + t).subrange(i + 1, j + 1) =~= t.subrange(i, j));
}

/// The international number at `i` of `t` is found at `i + 1` of `b + t`.
proof fn lemma_intl_match_shift(b: u8, t: Seq<u8>, i: int)
    requires
        0 <= i < t.len(),
    ensures
        intl_match_at(seq![b] + t, i + 1) == shifted_found(intl_match_at(t, i)),
{
    let u = seq![b] + t;
    assert(u[i + 1] == t[i]);
    if i + 1 < t.len() {
        assert(u[i + 2] == t[i + 1]);
        lemma_intl_extent_shift(b, t, i, i + 1, 0);
        lemma_intl_extent_bounds(t, i, i + 1, 0);
        let end = intl_extent(t, i, i + 1, 0);
        lemma_subrange_shift(b, t, i, end);
    }
}

/// The `(ddd)` number at `i` of `t` is found at `i + 1` of `b + t`.
proof fn lemma_paren_match_shift(b: u8, t: Seq<u8>, i: int)
    requires
        0 <= i < t.len(),
    ensures
        paren_match_at(seq![b] + t, i + 1) == shifted_found(paren_match_at(t, i)),
{
    let u = seq![b] + t;
    if i + 14 <= t.len() {
        assert(paren_prefix_at(u, i + 1) == paren_prefix_at(t, i)) by {
            assert(u[i + 1] == t[i]);
            assert(u[i + 2] == t[i + 1]);
            assert(u[i + 3] == t[i + 2]);
            assert(u[i + 4] == t[i + 3]);
            assert(u[i + 5] == t[i + 4]);
            assert(u[i + 6] == t[i + 5]);
        }
        if paren_prefix_at(t, i) {
            lemma_paren_extent_shift(b, t, i, i + 6, 0);
            lemma_paren_extent_bounds(t, i, i + 6, 0);
            let end = paren_extent(t, i, i + 6, 0);
            lemma_subrange_shift(b, t, i, end);
            assert(paren_value(u, i + 1, end + 1) == paren_value(t, i, end));
        }
    } else {
        assert(!paren_prefix_at(u, i + 1));
        assert(!paren_prefix_at(t, i));
    }
}

/// Whether a run of digits starts at `i` of `t` is whether one starts at
/// `i + 1` of `b + t`, for a byte `b` that is not a digit.
proof fn lemma_run_starts_shift(b: u8, t: Seq<u8>, i: int)
    requires
        0 <= i < t.len(),
        !is_digit_byte(b),
    ensures
        run_starts_at(seq![b] + t, i + 1) == run_starts_at(t, i),
{
    let u = seq![b] + t;
    assert(u[i + 1] == t[i]);
    assert(u[i] == if i == 0 { b } else { t[i - 1] });
}

/// The groups number at `i` of `t` is found at `i + 1` of `b + t`.
proof fn lemma_dash_match_shift(b: u8, t: Seq<u8>, i: int)
    requires
        0 <= i < t.len(),
        !is_digit_byte(b),
    ensures
        dash_match_at(seq![b] + t, i + 1) == shifted_found(dash_match_at(t, i)),
{
    let u = seq![b] + t;
    lemma_run_starts_shift(b, t, i);
    assert(u[i + 1] == t[i]);
    assert(u[i] == if i == 0 { b } else { t[i - 1] });
    if run_starts_at(t, i) {
        lemma_dash_extent_shift(b, t, i, i, 0, 0, false);
        lemma_dash_extent_bounds(t, i, i, 0, 0, false);
        let (end, sep, has) = dash_extent(t, i, i, 0, 0, false);
        lemma_subrange_shift(b, t, i, end);
    }
}

/// The international numbers of `t` from `i` on are those of `b + t` from
/// `i + 1` on, one position further on.
proof fn lemma_intl_phase_shift(b: u8, t: Seq<u8>, i: int, n: nat)
    requires
        0 <= i,
    ensures
        intl_phase(seq![b] + t, i + 1, n) == shifted_opt(intl_phase(t, i, n)),
    decreases t.len() - i,
{
    if i >= t.len() {
        assert(shifted_all(Seq::<PhoneMatchView>::empty()) =~= Seq::<PhoneMatchView>::empty());
    } else if n < MAX_PHONES_EXTRACT {
        lemma_intl_match_shift(b, t, i);
        match intl_match_at(t, i) {
            Some((m, end)) => {
                lemma_intl_extent_bounds(t, i, i + 1, 0);
                lemma_intl_phase_shift(b, t, end, n + 1);
                lemma_shift_prepend(m, intl_phase(t, end, n + 1));
            },
            None => {
                lemma_intl_phase_shift(b, t, i + 1, n);
            },
        }
    }
}

/// The formatted numbers of `t` from `i` on are those of `b + t` from `i + 1`
/// on, one position further on.
proof fn lemma_formatted_phase_shift(b: u8, t: Seq<u8>, i: int, n: nat)
    requires
        0 <= i,
        !is_digit_byte(b),
    ensures
        formatted_phase(seq![b] + t, i + 1, n) == shifted_opt(formatted_phase(t, i, n)),
    decreases t.len() - i,
{
    if i >= t.len() {
        assert(shifted_all(Seq::<PhoneMatchView>::empty()) =~= Seq::<PhoneMatchView>::empty());
    } else if n < MAX_PHONES_EXTRACT {
        lemma_paren_match_shift(b, t, i);
        lemma_dash_match_shift(b, t, i);
        match paren_match_at(t, i) {
            Some((m, end)) => {
                lemma_paren_extent_bounds(t, i, i + 6, 0);
                lemma_formatted_phase_shift(b, t, end, n + 1);
                lemma_shift_prepend(m, formatted_phase(t, end, n + 1));
            },
            None => match dash_match_at(t, i) {
                Some((m, end)) => {
                    lemma_dash_extent_bounds(t, i, i, 0, 0, false);
                    lemma_dash_first_step(t, i);
                    lemma_formatted_phase_shift(b, t, end, n + 1);
                    lemma_shift_prepend(m, formatted_phase(t, end, n + 1));
                },
                None => {
                    lemma_formatted_phase_shift(b, t, i + 1, n);
                },
            },
        }
    }
}

/// The plain numbers of `t` from `i` on are those of `b + t` from `i + 1` on,
/// one position further on.
proof fn lemma_plain_phase_shift(b: u8, t: Seq<u8>, i: int, n: nat)
    requires
        0 <= i,
        !is_digit_byte(b),
    ensures
        plain_phase(seq![b] + t, i + 1, n) == shifted_opt(plain_phase(t, i, n)),
    decreases t.len() - i,
{
    if i >= t.len() {
        assert(shifted_all(Seq::<PhoneMatchView>::empty()) =~= Seq::<PhoneMatchView>::empty());
    } else if n < MAX_PHONES_EXTRACT {
        lemma_run_starts_shift(b, t, i);
        if !run_starts_at(t, i) {
            lemma_plain_phase_shift(b, t, i + 1, n);
        } else {
            let end = run_end(t, i);
            lemma_run_end_shift(b, t, i);
            lemma_run_end_bounds(t, i + 1);
            lemma_run_end_bounds(t, i);
            lemma_subrange_shift(b, t, i, end);
            match plain_kind(t.subrange(i, end)) {
                Some(kind) => {
                    lemma_plain_phase_shift(b, t, end, n + 1);
                    lemma_shift_prepend(
                        match_view(kind, t.subrange(i, end), i),
                        plain_phase(t, end, n + 1),
                    );
                },
                None => {
                    lemma_plain_phase_shift(b, t, end, n);
                },
            }
        }
    }
}

/// The numbers found by the three walks over `t` are those found over `b + t`,
/// one position further on.
pub proof fn lemma_raw_matches_shift(b: u8, t: Seq<u8>)
    requires
        inert_byte(b),
        t.len() > 0,
    ensures
        raw_matches(seq![b] + t) == shifted_opt(raw_matches(t)),
{
    let u = seq![b] + t;
    assert(u[0] == b);
    assert(!run_starts_at(u, 0));
    lemma_intl_phase_shift(b, t, 0, 0);
    assert(intl_phase(u, 0, 0) == intl_phase(u, 1, 0));
    if let Some(a) = intl_phase(t, 0, 0) {
        let na = a.len();
        lemma_formatted_phase_shift(b, t, 0, na);
        if na < MAX_PHONES_EXTRACT {
            assert(paren_match_at(u, 0) is None);
            assert(dash_match_at(u, 0) is None);
        }
        assert(formatted_phase(u, 0, na) == formatted_phase(u, 1, na));
        if let Some(c) = formatted_phase(t, 0, na) {
            let nb = na + c.len();
            lemma_plain_phase_shift(b, t, 0, nb);
            assert(plain_phase(u, 0, nb) == plain_phase(u, 1, nb));
            if let Some(d) = plain_phase(t, 0, nb) {
                assert(shifted_all(a) + shifted_all(c) + shifted_all(d) =~= shifted_all(a + c + d));
            }
        }
    }
}

/// Inserting by position commutes with shifting.
proof fn lemma_insert_shift(sorted: Seq<PhoneMatchView>, m: PhoneMatchView)
    ensures
        insert_by_position(shifted_all(sorted), shifted(m)) == shifted_all(
            insert_by_position(sorted, m),
        ),
    decreases sorted.len(),
{
    if sorted.len() > 0 {
        assert(shifted_all(sorted).drop_first() =~= shifted_all(sorted.drop_first()));
        lemma_insert_shift(sorted.drop_first(), m);
        assert(seq![shifted(m)] + shifted_all(sorted) =~= shifted_all(seq![m] + sorted));
        assert(seq![shifted(sorted[0])] + shifted_all(insert_by_position(sorted.drop_first(), m))
            =~= shifted_all(seq![sorted[0]] + insert_by_position(sorted.drop_first(), m)));
    } else {
        assert(seq![shifted(m)] =~= shifted_all(seq![m]));
    }
}

/// Ordering by position commutes with shifting.
pub proof fn lemma_sort_shift(r: Seq<PhoneMatchView>)
    ensures
        sort_by_position(shifted_all(r)) == shifted_all(sort_by_position(r)),
    decreases r.len(),
{
    if r.len() > 0 {
        assert(shifted_all(r).drop_first() =~= shifted_all(r.drop_first()));
        lemma_sort_shift(r.drop_first());
        lemma_insert_shift(sort_by_position(r.drop_first()), r[0]);
    }
}

/// Selecting the kept matches commutes with shifting, the end of the last
/// kept match moving with them.
pub proof fn lemma_select_shift(r: Seq<PhoneMatchView>, last_end: int, seen: Set<Seq<char>>)
    ensures
        select_non_overlapping(shifted_all(r), last_end + 1, seen) == shifted_all(
            select_non_overlapping(r, last_end, seen),
        ),
    decreases r.len(),
{
    if r.len() > 0 {
        let m = r[0];
        assert(shifted_all(r).drop_first() =~= shifted_all(r.drop_first()));
        assert(shifted_all(r)[0] == shifted(m));
        lemma_select_shift(
            r.drop_first(),
            (m.position + vstd::utf8::encode_utf8(m.value).len()) as int,
            seen.insert(m.normalized),
        );
        lemma_select_shift(r.drop_first(), last_end, seen);
        let rest = select_non_overlapping(
            r.drop_first(),
            (m.position + vstd::utf8::encode_utf8(m.value).len()) as int,
            seen.insert(m.normalized),
        );
        assert(seq![shifted(m)] + shifted_all(rest) =~= shifted_all(seq![m] + rest));
    } else {
        assert(shifted_all(Seq::<PhoneMatchView>::empty()) =~= Seq::<PhoneMatchView>::empty());
    }
}

/// Selection from a last end at or before the start of the text is selection
/// from the start.
pub proof fn lemma_select_from_start(r: Seq<PhoneMatchView>, last_end: int, seen: Set<Seq<char>>)
    requires
        last_end <= 0,
    ensures
        select_non_overlapping(r, last_end, seen) == select_non_overlapping(r, 0, seen),
    decreases r.len(),
{
    if r.len() > 0 {
        lemma_select_from_start(r.drop_first(), last_end, seen);
    }
}

} // verus!
