//! Byte- and character-level views of text, and the helpers that turn byte
//! ranges of the input into `String`s.
use vstd::prelude::*;
use vstd::string::StringSliceAdditionalSpecFns;
use crate::classifier::{CharacterClassifier, is_digit_byte};

verus! {

broadcast use vstd::string::group_string_axioms;

/// The characters whose code points are the given bytes.
pub open spec fn chars_of(s: Seq<u8>) -> Seq<char> {
    Seq::new(s.len(), |i: int| s[i] as char)
}

/// The decimal digits of `s`, in order.
pub open spec fn digits_of(s: Seq<u8>) -> Seq<u8>
    decreases s.len(),
{
    if s.len() == 0 {
        Seq::empty()
    } else if is_digit_byte(s.last()) {
        digits_of(s.drop_last()).push(s.last())
    } else {
        digits_of(s.drop_last())
    }
}

/// The decimal digit characters of `s`, in order.
pub open spec fn digit_chars(s: Seq<char>) -> Seq<char>
    decreases s.len(),
{
    if s.len() == 0 {
        Seq::empty()
    } else if '0' <= s.last() <= '9' {
        digit_chars(s.drop_last()).push(s.last())
    } else {
        digit_chars(s.drop_last())
    }
}

/// Every byte of `s` is a decimal digit.
pub open spec fn all_digits(s: Seq<u8>) -> bool {
    forall|i: int| 0 <= i < s.len() ==> is_digit_byte(#[trigger] s[i])
}

/// Appending a byte appends it to the digits exactly when it is a digit.
pub proof fn lemma_digits_of_push(s: Seq<u8>, b: u8)
    ensures
        digits_of(s.push(b)) == (if is_digit_byte(b) {
            digits_of(s).push(b)
        } else {
            digits_of(s)
        }),
{
    assert(s.push(b).drop_last() =~= s);
}

/// A text has no more digits than bytes, and its digits are all digits.
pub proof fn lemma_digits_of_len(s: Seq<u8>)
    ensures
        digits_of(s).len() <= s.len(),
        forall|i: int| 0 <= i < digits_of(s).len() ==> is_digit_byte(#[trigger] digits_of(s)[i]),
    decreases s.len(),
{
    if s.len() > 0 {
        lemma_digits_of_len(s.drop_last());
    }
}

/// The digits of a sequence of digits are the sequence itself.
pub proof fn lemma_digits_of_all_digits(s: Seq<u8>)
    requires
        all_digits(s),
    ensures
        digits_of(s) == s,
    decreases s.len(),
{
    if s.len() > 0 {
        assert(all_digits(s.drop_last()));
        lemma_digits_of_all_digits(s.drop_last());
        assert(s.drop_last().push(s.last()) =~= s);
    }
}

/// The digits of a concatenation are the concatenation of the digits.
pub proof fn lemma_digits_of_concat(a: Seq<u8>, b: Seq<u8>)
    ensures
        digits_of(a + b) == digits_of(a) + digits_of(b),
    decreases b.len(),
{
    if b.len() == 0 {
        assert(a + b =~= a);
        assert(digits_of(a) + digits_of(b) =~= digits_of(a));
    } else {
        lemma_digits_of_concat(a, b.drop_last());
        assert((a + b).drop_last() =~= a + b.drop_last());
        if is_digit_byte(b.last()) {
            assert(digits_of(a) + digits_of(b.drop_last()).push(b.last()) =~= (digits_of(a)
                + digits_of(b.drop_last())).push(b.last()));
        }
    }
}

/// Taking digits commutes with reading bytes as characters.
pub proof fn lemma_digit_chars_of(s: Seq<u8>)
    ensures
        digit_chars(chars_of(s)) == chars_of(digits_of(s)),
    decreases s.len(),
{
    if s.len() > 0 {
        lemma_digit_chars_of(s.drop_last());
        assert(chars_of(s).drop_last() =~= chars_of(s.drop_last()));
        let b = s.last();
        assert(chars_of(s).last() == b as char);
        assert(('0' <= (b as char) <= '9') == is_digit_byte(b));
        assert(chars_of(digits_of(s.drop_last()).push(b)) =~= chars_of(digits_of(s.drop_last())).push(
            b as char,
        ));
    } else {
        assert(chars_of(s) =~= Seq::<char>::empty());
        assert(chars_of(digits_of(s)) =~= Seq::<char>::empty());
    }
}

/// Appends `c` to `s` (`String::push`).
#[verifier::external_body]
pub(crate) fn push_char(s: &mut String, c: char)
    ensures
        final(s)@ == old(s)@.push(c),
{
    s.push(c);
}

/// Appends the characters of `data[start..end]` to `out`.
pub(crate) fn push_bytes_as_chars(out: &mut String, data: &[u8], start: usize, end: usize)
    requires
        start <= end <= data@.len(),
    ensures
        final(out)@ == old(out)@ + chars_of(data@.subrange(start as int, end as int)),
{
    let ghost init = out@;
    let mut k = start;
    while k < end
        invariant
            start <= k <= end <= data@.len(),
            out@ == init + chars_of(data@.subrange(start as int, k as int)),
        decreases end - k,
    {
        push_char(out, data[k] as char);
        k += 1;
        assert(chars_of(data@.subrange(start as int, k as int)) =~= chars_of(
            data@.subrange(start as int, k - 1),
        ).push(data@[k - 1] as char));
    }
}

/// The string made of the characters of `data[start..end]`.
pub(crate) fn ascii_string(data: &[u8], start: usize, end: usize) -> (r: String)
    requires
        start <= end <= data@.len(),
    ensures
        r@ == chars_of(data@.subrange(start as int, end as int)),
{
    let mut out = String::new();
    push_bytes_as_chars(&mut out, data, start, end);
    assert(Seq::<char>::empty() + chars_of(data@.subrange(start as int, end as int)) =~= chars_of(
        data@.subrange(start as int, end as int),
    ));
    out
}

/// The decimal digits of `data[start..end]`, in order.
pub(crate) fn digits_vec(data: &[u8], start: usize, end: usize) -> (r: Vec<u8>)
    requires
        start <= end <= data@.len(),
    ensures
        r@ == digits_of(data@.subrange(start as int, end as int)),
{
    let mut out: Vec<u8> = Vec::new();
    let mut k = start;
    assert(data@.subrange(start as int, start as int) =~= Seq::<u8>::empty());
    while k < end
        invariant
            start <= k <= end <= data@.len(),
            out@ == digits_of(data@.subrange(start as int, k as int)),
        decreases end - k,
    {
        let ghost prev = data@.subrange(start as int, k as int);
        let b = data[k];
        proof {
            assert(data@.subrange(start as int, k + 1) =~= prev.push(b));
            lemma_digits_of_push(prev, b);
        }
        if CharacterClassifier::is_digit(b) {
            out.push(b);
        }
        k += 1;
    }
    out
}

/// The string made of the decimal digits of `data[start..end]`, in order.
pub(crate) fn digit_string(data: &[u8], start: usize, end: usize) -> (r: String)
    requires
        start <= end <= data@.len(),
    ensures
        r@ == chars_of(digits_of(data@.subrange(start as int, end as int))),
{
    let d = digits_vec(data, start, end);
    let r = ascii_string(d.as_slice(), 0, d.len());
    assert(d@.subrange(0, d@.len() as int) =~= d@);
    r
}

/// The decimal digits of `s`, in order, as a string.
pub fn extract_digits(s: &str) -> (r: String)
    ensures
        r@ == chars_of(digits_of(s.spec_bytes())),
{
    let data = s.as_bytes();
    let r = digit_string(data, 0, data.len());
    assert(data@.subrange(0, data@.len() as int) =~= data@);
    r
}

/// The UTF-8 encoding of the characters of a sequence of digits is that
/// sequence.
pub proof fn lemma_digit_chars_encode(d: Seq<u8>)
    requires
        all_digits(d),
    ensures
        vstd::utf8::encode_utf8(chars_of(d)) == d,
{
    let c = chars_of(d);
    assert(vstd::utf8::is_ascii_chars(c)) by {
        assert forall|i: int| 0 <= i < c.len() implies '\0' <= #[trigger] c[i] <= '\u{7f}' by {
            assert(is_digit_byte(d[i]));
        }
    }
    vstd::utf8::is_ascii_chars_encode_utf8(c);
    let e = vstd::utf8::encode_utf8(c);
    assert forall|i: int| 0 <= i < d.len() implies e[i] == d[i] by {
        assert(c[i] as u8 == e[i]);
        assert(is_digit_byte(d[i]));
    }
    assert(e =~= d);
}

/// A string has no more digit characters than characters.
pub proof fn lemma_digit_chars_len(s: Seq<char>)
    ensures
        digit_chars(s).len() <= s.len(),
    decreases s.len(),
{
    if s.len() > 0 {
        lemma_digit_chars_len(s.drop_last());
    }
}

/// The UTF-8 encoding of the characters of a sequence of ASCII bytes is that
/// sequence.
pub proof fn lemma_ascii_chars_encode(d: Seq<u8>)
    requires
        forall|i: int| 0 <= i < d.len() ==> #[trigger] d[i] < 128,
    ensures
        vstd::utf8::encode_utf8(chars_of(d)) == d,
{
    let c = chars_of(d);
    assert(vstd::utf8::is_ascii_chars(c)) by {
        assert forall|i: int| 0 <= i < c.len() implies '\0' <= #[trigger] c[i] <= '\u{7f}' by {
            assert(d[i] < 128);
        }
    }
    vstd::utf8::is_ascii_chars_encode_utf8(c);
    let e = vstd::utf8::encode_utf8(c);
    assert forall|i: int| 0 <= i < d.len() implies e[i] == d[i] by {
        assert(c[i] as u8 == e[i]);
        assert(d[i] < 128);
    }
    assert(e =~= d);
}

} // verus!
