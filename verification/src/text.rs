//! Decimal numerals and UTF-8 text.
use vstd::prelude::*;
use vstd::string::StringExecFns;
use vstd::utf8::*;

use crate::cursor::{digit_run, digits_value, is_digit};

verus! {

/// The decimal numeral of `n`, most significant digit first, without
/// leading zeros.
pub open spec fn decimal(n: nat) -> Seq<u8>
    decreases n,
{
    if n < 10 {
        seq![(48 + n) as u8]
    } else {
        decimal(n / 10).push((48 + n % 10) as u8)
    }
}

/// A numeral is made of digits only, has at least one, and writes its number.
pub proof fn lemma_decimal(n: nat)
    ensures
        decimal(n).len() >= 1,
        forall|j: int| 0 <= j < decimal(n).len() ==> is_digit(#[trigger] decimal(n)[j]),
        digits_value(decimal(n)) == n,
    decreases n,
{
    if n >= 10 {
        lemma_decimal(n / 10);
        let d = decimal(n);
        assert(d.drop_last() =~= decimal(n / 10));
        assert(d.last() == (48 + n % 10) as u8);
        assert((d.last() - 48) as nat == n % 10);
        assert(digits_value(d) == digits_value(decimal(n / 10)) * 10 + n % 10);
        let q = n / 10;
        let r = n % 10;
        assert(digits_value(decimal(q)) == q);
        assert(q * 10 + r == n) by (nonlinear_arith)
            requires
                q == n / 10,
                r == n % 10,
        ;
        assert(digits_value(d) == q * 10 + r);
    } else {
        let d = decimal(n);
        assert(d.drop_last() =~= Seq::<u8>::empty());
        assert(digits_value(d) == digits_value(d.drop_last()) * 10 + (d.last() - 48) as nat);
    }
}

/// The digits of `t` from `from` on number `k`, when `k` digits follow
/// `from` and then a non-digit or the end.
pub proof fn lemma_digit_run(t: Seq<u8>, from: int, k: nat)
    requires
        0 <= from,
        from + k <= t.len(),
        forall|j: int| from <= j < from + k ==> is_digit(#[trigger] t[j]),
        from + k == t.len() || !is_digit(t[from + k]),
    ensures
        digit_run(t, from) == k,
    decreases k,
{
    if k > 0 {
        lemma_digit_run(t, from + 1, (k - 1) as nat);
    }
}

/// Appends the decimal numeral of `n` to `out`.
pub fn push_decimal(out: &mut Vec<u8>, n: u64)
    ensures
        final(out)@ == old(out)@ + decimal(n as nat),
    decreases n,
{
    if n >= 10 {
        push_decimal(out, n / 10);
    }
    let d: u8 = (n % 10) as u8;
    out.push(48 + d);
    proof {
        if n >= 10 {
            assert(decimal(n as nat) == decimal((n / 10) as nat).push((48 + n % 10) as u8));
        }
    }
    assert(final(out)@ =~= old(out)@ + decimal(n as nat));
}

/// Appends the bytes of `b` to `out`.
pub fn push_bytes(out: &mut Vec<u8>, b: &[u8])
    ensures
        final(out)@ == old(out)@ + b@,
{
    let mut i: usize = 0;
    while i < b.len()
        invariant
            i <= b@.len(),
            out@ == old(out)@ + b@.subrange(0, i as int),
        decreases b@.len() - i,
    {
        out.push(b[i]);
        i = i + 1;
        assert(out@ =~= old(out)@ + b@.subrange(0, i as int));
    }
    assert(b@.subrange(0, b@.len() as int) =~= b@);
}

/// Calls `String::from_utf8` on a copy of `bytes`: a string when the bytes
/// are valid UTF-8, the characters they encode; nothing otherwise.
#[verifier::external_body]
pub(crate) fn utf8_to_string(bytes: &[u8]) -> (res: Option<String>)
    ensures
        res is Some <==> valid_utf8(bytes@),
        res matches Some(s) ==> s@ == decode_utf8(bytes@),
{
    String::from_utf8(bytes.to_vec()).ok()
}

/// The decimal numeral of `n` as text.
pub open spec fn decimal_text(n: nat) -> Seq<char> {
    Seq::new(decimal(n).len(), |i: int| decimal(n)[i] as char)
}

/// The numeral text is ASCII, and its UTF-8 encoding is the numeral's bytes.
pub proof fn lemma_decimal_text(n: nat)
    ensures
        encode_utf8(decimal_text(n)) == decimal(n),
        valid_utf8(decimal(n)),
        decode_utf8(decimal(n)) == decimal_text(n),
{
    let d = decimal(n);
    let t = decimal_text(n);
    lemma_decimal(n);
    assert forall|i: int| 0 <= i < t.len() implies '\0' <= #[trigger] t[i] <= '\u{7f}' by {
        assert(is_digit(d[i]));
    }
    is_ascii_chars_encode_utf8(t);
    assert forall|i: int| 0 <= i < d.len() implies #[trigger] encode_utf8(t)[i] == d[i] by {
        let b = d[i];
        assert(is_digit(b));
        assert(t[i] == b as char);
        assert((b as char) as u8 == b);
    }
    assert(encode_utf8(t) =~= d);
    encode_utf8_valid_utf8(t);
    encode_utf8_decode_utf8(t);
}

/// The decimal numeral of `n` as a string.
pub fn decimal_string(n: u64) -> (s: String)
    ensures
        s@ == decimal_text(n as nat),
{
    let mut digits: Vec<u8> = Vec::new();
    push_decimal(&mut digits, n);
    proof {
        assert(digits@ =~= decimal(n as nat));
        lemma_decimal_text(n as nat);
    }
    match utf8_to_string(digits.as_slice()) {
        Some(s) => s,
        None => vstd::pervasive::unreached(),
    }
}

/// Unicode upper-casing of a text, as `str::to_uppercase` computes it.
pub uninterp spec fn uppercase(s: Seq<char>) -> Seq<char>;

/// Calls `str::to_uppercase`: the text with every character replaced by its
/// Unicode upper-case mapping. The mapping is not restated here; the result
/// is the name `uppercase` of the characters of `s`.
#[verifier::external_body]
pub(crate) fn to_uppercase(s: &str) -> (res: String)
    ensures
        res@ == uppercase(s@),
{
    s.to_uppercase()
}

/// Unicode lower-casing of a text, as `str::to_lowercase` computes it.
pub uninterp spec fn lowercase(s: Seq<char>) -> Seq<char>;

/// Calls `str::to_lowercase`: the text with every character replaced by its
/// Unicode lower-case mapping. The mapping is not restated here; the result
/// is the name `lowercase` of the characters of `s`.
#[verifier::external_body]
pub(crate) fn to_lowercase(s: &str) -> (res: String)
    ensures
        res@ == lowercase(s@),
{
    s.to_lowercase()
}

/// An ASCII decimal digit character.
pub open spec fn is_digit_char(c: char) -> bool {
    '0' <= c <= '9'
}

/// The number that the digit characters `d` write.
pub open spec fn chars_value(d: Seq<char>) -> nat
    decreases d.len(),
{
    if d.len() == 0 {
        0
    } else {
        chars_value(d.drop_last()) * 10 + (d.last() as nat - 48) as nat
    }
}

/// What `str::parse::<u64>` gives: an optional `+` followed by one or more
/// digits and nothing else, whose value fits in a `u64`.
pub open spec fn parse_u64_text(s: Seq<char>) -> Option<u64> {
    let off: int = if s.len() > 0 && s[0] == '+' {
        1
    } else {
        0
    };
    let ds = s.subrange(off, s.len() as int);
    if ds.len() == 0 {
        None
    } else if exists|i: int| 0 <= i < ds.len() && !is_digit_char(#[trigger] ds[i]) {
        None
    } else if chars_value(ds) <= u64::MAX {
        Some(chars_value(ds) as u64)
    } else {
        None
    }
}

/// Calls `str::parse::<u64>`, which accepts an optional `+` and then
/// decimal digits only, and fails on an empty string, on any other
/// character and on overflow; the contract restates that as
/// `parse_u64_text`.
#[verifier::external_body]
pub(crate) fn str_to_u64(s: &str) -> (res: Option<u64>)
    ensures
        res == parse_u64_text(s@),
{
    s.parse::<u64>().ok()
}

/// The text `String::from_utf8_lossy` makes of some bytes.
pub uninterp spec fn utf8_lossy(b: Seq<u8>) -> Seq<char>;

/// Calls `String::from_utf8_lossy`: the bytes read as UTF-8, with each
/// invalid sequence replaced by U+FFFD. Stated here: the result is the name
/// `utf8_lossy` of the bytes, and valid UTF-8 is read as it is. Not stated:
/// where replacement characters go in invalid input.
#[verifier::external_body]
pub(crate) fn lossy_string(b: &[u8]) -> (res: String)
    ensures
        res@ == utf8_lossy(b@),
        valid_utf8(b@) ==> res@ == decode_utf8(b@),
{
    String::from_utf8_lossy(b).into_owned()
}

/// Whether two texts are the same, compared byte by byte.
pub fn text_is(s: &str, other: &str) -> (b: bool)
    ensures
        b == (s@ == other@),
{
    let x = s.as_bytes();
    let y = other.as_bytes();
    proof {
        encode_utf8_decode_utf8(s@);
        encode_utf8_decode_utf8(other@);
    }
    if x.len() != y.len() {
        return false;
    }
    let mut i: usize = 0;
    while i < x.len()
        invariant
            x@ == encode_utf8(s@),
            y@ == encode_utf8(other@),
            x@.len() == y@.len(),
            i <= x@.len(),
            forall|j: int| 0 <= j < i ==> x@[j] == y@[j],
        decreases x@.len() - i,
    {
        if x[i] != y[i] {
            return false;
        }
        i = i + 1;
    }
    proof {
        assert(x@ =~= y@);
    }
    true
}

/// The UTF-8 bytes of a text.
pub fn bytes_of(s: &str) -> (b: Vec<u8>)
    ensures
        b@ == encode_utf8(s@),
{
    vstd::slice::slice_to_vec(s.as_bytes())
}

/// The text that `format!("{:?}")` writes for a string.
pub uninterp spec fn str_debug_text(s: Seq<char>) -> Seq<char>;

/// Calls `format!("{:?}")` on a string, which writes it in double quotes
/// with some characters escaped. The escaping is not restated here: the
/// result is the name `str_debug_text` of the characters.
#[verifier::external_body]
pub(crate) fn text_debug(name: &str) -> (res: String)
    ensures
        res@ == str_debug_text(name@),
{
    format!("{:?}", name)
}

/// The text that `format!("{:?}")` writes for a `bytes::Bytes` holding
/// some bytes.
pub uninterp spec fn bulk_debug_text(d: Seq<u8>) -> Seq<char>;

/// Calls `format!("{:?}")` on a `bytes::Bytes` copy of some bytes, which
/// writes them as a byte string literal: `b"`, each byte as an ASCII
/// character or an escape, and `"`. The escaping is not restated here: the
/// result is the name `bulk_debug_text` of the bytes.
#[verifier::external_body]
pub(crate) fn bulk_debug(d: &[u8]) -> (res: String)
    ensures
        res@ == bulk_debug_text(d@),
{
    format!("{:?}", bytes::Bytes::copy_from_slice(d))
}

/// `prefix` followed by `rest`.
pub fn concat_text(prefix: &str, rest: &str) -> (s: String)
    ensures
        s@ == prefix@ + rest@,
{
    let mut s = prefix.to_string();
    s.append(rest);
    s
}

} // verus!
