//! Text taken from raw bytes.
use vstd::prelude::*;
use vstd::utf8::*;
use crate::decimal::{decimal, lemma_decimal, push_decimal, ZERO};
use crate::value::{has_crlf, CR, LF};

verus! {

/// What `str::to_uppercase` makes of a text: Unicode upper case, which takes
/// tables to state.
pub uninterp spec fn upper_of(s: Seq<char>) -> Seq<char>;

/// Relies on `str::to_uppercase`: its result is a function of the text alone.
#[verifier::external_body]
pub(crate) fn uppercase(s: &str) -> (r: String)
    ensures
        r@ == upper_of(s@),
{
    s.to_uppercase()
}

/// Relies on `std::str::from_utf8`: it accepts exactly the byte sequences that
/// are valid UTF-8, and then yields the text they encode.
#[verifier::external_body]
pub(crate) fn utf8_text(bytes: &[u8]) -> (r: Option<String>)
    ensures
        r is Some <==> valid_utf8(bytes@),
        r matches Some(s) ==> s@ == decode_utf8(bytes@),
{
    match std::str::from_utf8(bytes) {
        Ok(s) => Some(s.to_string()),
        Err(_) => None,
    }
}

/// True when the two texts are the same.
pub fn same_text(a: &str, b: &str) -> (r: bool)
    ensures
        r == (a@ == b@),
{
    let x = a.as_bytes();
    let y = b.as_bytes();
    proof {
        encode_utf8_decode_utf8(a@);
        encode_utf8_decode_utf8(b@);
    }
    if x.len() != y.len() {
        return false;
    }
    let mut i: usize = 0;
    while i < x.len()
        invariant
            i <= x@.len(),
            x@.len() == y@.len(),
            x@ == encode_utf8(a@),
            y@ == encode_utf8(b@),
            forall|j: int| 0 <= j < i ==> x@[j] == y@[j],
        decreases x@.len() - i,
    {
        if x[i] != y[i] {
            assert(encode_utf8(a@) != encode_utf8(b@));
            return false;
        }
        i = i + 1;
    }
    assert(x@ =~= y@);
    true
}

/// The decimal spelling of `n`, as text.
pub open spec fn decimal_chars(n: nat) -> Seq<char> {
    decimal(n).map_values(|b: u8| b as char)
}

/// The decimal spelling of `n`, as a string.
pub fn decimal_text(n: usize) -> (r: String)
    ensures
        r@ == decimal_chars(n as nat),
{
    let mut digits: Vec<u8> = Vec::new();
    push_decimal(&mut digits, n);
    assert(digits@ =~= decimal(n as nat));
    let ghost chars = decimal_chars(n as nat);
    proof {
        lemma_decimal(n as nat);
        assert forall|i: int| 0 <= i < chars.len() implies '\0' <= #[trigger] chars[i] <= '\u{7f}' by {
            assert(ZERO <= decimal(n as nat)[i] <= ZERO + 9);
        }
        is_ascii_chars_encode_utf8(chars);
        assert(encode_utf8(chars) =~= digits@);
        encode_utf8_valid_utf8(chars);
        encode_utf8_decode_utf8(chars);
    }
    match utf8_text(digits.as_slice()) {
        Some(s) => s,
        // Digits are ASCII, hence valid UTF-8: this arm is never taken.
        None => String::new(),
    }
}

/// A character that is no line break: carriage return and line feed become
/// spaces.
pub open spec fn unbroken_char(c: char) -> char {
    if c == '\r' || c == '\n' {
        ' '
    } else {
        c
    }
}

/// The text with every carriage return and line feed turned into a space.
pub open spec fn single_line(s: Seq<char>) -> Seq<char> {
    s.map_values(|c: char| unbroken_char(c))
}

/// True when the text holds no carriage return and no line feed.
pub open spec fn has_no_line_break(s: Seq<char>) -> bool {
    forall|i: int| 0 <= i < s.len() ==> #[trigger] s[i] != '\r' && s[i] != '\n'
}

/// The bytes with every carriage return and line feed turned into a space.
pub open spec fn unbroken_bytes(b: Seq<u8>) -> Seq<u8> {
    b.map_values(|x: u8| if x == 13u8 || x == 10u8 { 32u8 } else { x })
}

proof fn lemma_high_bits(x: u8)
    by (bit_vector)
    ensures
        (0x80u8 | x) >= 0x80u8,
        (0xC0u8 | x) >= 0x80u8,
        (0xE0u8 | x) >= 0x80u8,
        (0xF0u8 | x) >= 0x80u8,
{
}

proof fn lemma_low_bits(v: u32)
    by (bit_vector)
    requires
        v <= 0x7f,
    ensures
        (v & 0x7f) == v,
        ((v & 0x7f) as u8) as u32 == v,
{
}

/// Turning line breaks into spaces byte by byte or character by character
/// gives the same encoding for one character.
proof fn lemma_unbroken_scalar(c: char)
    ensures
        unbroken_bytes(encode_scalar(c as u32)) == encode_scalar(unbroken_char(c) as u32),
{
    let v = c as u32;
    let e = encode_scalar(v);
    char_is_scalar(c);
    if has_width_1_encoding(v) {
        lemma_low_bits(v);
        lemma_low_bits(32u32);
        if c == '\r' || c == '\n' {
            assert(unbroken_bytes(e) =~= encode_scalar(unbroken_char(c) as u32));
        } else {
            if v == 13 {
                char_u32_cast(c, 13u32);
                char_u32_cast('\r', 13u32);
            }
            if v == 10 {
                char_u32_cast(c, 10u32);
                char_u32_cast('\n', 10u32);
            }
            assert(unbroken_bytes(e) =~= e);
        }
    } else {
        assert(c != '\r' && c != '\n');
        lemma_high_bits(((v >> 6) & 0x1F) as u8);
        lemma_high_bits(((v >> 12) & 0x0F) as u8);
        lemma_high_bits(((v >> 18) & 0x7) as u8);
        lemma_high_bits((v & 0x3F) as u8);
        lemma_high_bits(((v >> 6) & 0x3F) as u8);
        lemma_high_bits(((v >> 12) & 0x3F) as u8);
        assert(unbroken_bytes(e) =~= e);
    }
}

/// So it gives the same encoding for a whole text.
proof fn lemma_unbroken(chars: Seq<char>)
    ensures
        unbroken_bytes(encode_utf8(chars)) == encode_utf8(single_line(chars)),
    decreases chars.len(),
{
    if chars.len() == 0 {
        assert(unbroken_bytes(encode_utf8(chars)) =~= encode_utf8(single_line(chars)));
    } else {
        let rest = chars.drop_first();
        lemma_unbroken_scalar(chars[0]);
        lemma_unbroken(rest);
        assert(single_line(chars).drop_first() =~= single_line(rest));
        assert(single_line(chars)[0] == unbroken_char(chars[0]));
        assert(unbroken_bytes(encode_scalar(chars[0] as u32) + encode_utf8(rest)) =~= unbroken_bytes(
            encode_scalar(chars[0] as u32),
        ) + unbroken_bytes(encode_utf8(rest)));
    }
}

/// `s` with every carriage return and line feed turned into a space, so
/// that it fits on one protocol line.
pub fn single_line_text(s: &str) -> (r: String)
    ensures
        r@ == single_line(s@),
        has_no_line_break(r@),
{
    let b = s.as_bytes();
    let mut out: Vec<u8> = Vec::new();
    let mut i: usize = 0;
    while i < b.len()
        invariant
            i <= b@.len(),
            out@ == unbroken_bytes(b@.take(i as int)),
        decreases b@.len() - i,
    {
        let x = b[i];
        let y = if x == 13u8 || x == 10u8 { 32u8 } else { x };
        out.push(y);
        i = i + 1;
        assert(out@ =~= unbroken_bytes(b@.take(i as int)));
    }
    assert(b@.take(b@.len() as int) =~= b@);
    proof {
        lemma_unbroken(s@);
        encode_utf8_valid_utf8(single_line(s@));
        encode_utf8_decode_utf8(single_line(s@));
        assert forall|i: int| 0 <= i < single_line(s@).len() implies #[trigger] single_line(s@)[i]
            != '\r' && single_line(s@)[i] != '\n' by {
            assert(single_line(s@)[i] == unbroken_char(s@[i]));
        }
    }
    match utf8_text(out.as_slice()) {
        Some(t) => t,
        // The bytes encode a text, so they are valid UTF-8: this arm is never taken.
        None => String::new(),
    }
}

/// A text on one line encodes to bytes with no line terminator in them.
pub proof fn lemma_single_line_bytes(s: Seq<char>)
    ensures
        !has_crlf(encode_utf8(single_line(s))),
{
    lemma_unbroken(s);
    let b = encode_utf8(s);
    assert forall|i: int| 0 <= i && i + 1 < unbroken_bytes(b).len() implies !(
    #[trigger] unbroken_bytes(b)[i] == CR && unbroken_bytes(b)[i + 1] == LF) by {}
}

} // verus!
