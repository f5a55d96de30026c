//! Character classes and UTF-8 decoding.

use unicode_xid::UnicodeXID;
use vstd::prelude::*;
use vstd::slice::slice_to_vec;
use vstd::utf8::*;

verus! {

/// Why a byte sequence does not start with a well-formed UTF-8 scalar.
#[derive(Debug, Clone, PartialEq, Eq)]
pub enum CharErrorEnum {
    /// The first byte cannot start a character.
    InvalidFirstByte(u8),
    /// The encoded value lies above U+10FFFF.
    ScalarTooLarge(u32),
    /// The encoded value lies in the surrogate range.
    SurrogateInUtf8(u32),
    /// Fewer bytes are left than the first byte announces: how many it needs, and those left.
    SliceTooShort(usize, Vec<u8>),
    /// A byte after the first is not of the form `10xxxxxx`.
    InvalidContinuationByte(u8),
    /// The value is encoded with more bytes than it needs.
    OverlongEncoding(u32),
}

/// The reserved characters, which text must escape.
pub open spec fn reserved(c: char) -> bool {
    c == '<' || c == '>' || c == '{' || c == '}' || c == '\\' || c == '|'
}

pub fn is_reserved_char(c: char) -> (r: bool)
    ensures
        r == reserved(c),
{
    c == '<' || c == '>' || c == '{' || c == '}' || c == '\\' || c == '|'
}

/// The characters with the Unicode White_Space property.
pub open spec fn white_space(c: char) -> bool {
    ||| ('\t' <= c && c <= '\r')
    ||| c == ' '
    ||| c == '\u{85}'
    ||| c == '\u{A0}'
    ||| c == '\u{1680}'
    ||| ('\u{2000}' <= c && c <= '\u{200A}')
    ||| c == '\u{2028}'
    ||| c == '\u{2029}'
    ||| c == '\u{202F}'
    ||| c == '\u{205F}'
    ||| c == '\u{3000}'
}

pub fn is_whitespace(c: char) -> (r: bool)
    ensures
        r == white_space(c),
{
    ('\t' <= c && c <= '\r') || c == ' ' || c == '\u{85}' || c == '\u{A0}' || c == '\u{1680}' || (
    '\u{2000}' <= c && c <= '\u{200A}') || c == '\u{2028}' || c == '\u{2029}' || c == '\u{202F}'
        || c == '\u{205F}' || c == '\u{3000}'
}

/// The characters besides XID ones that identifiers may hold.
pub open spec fn id_other(c: char) -> bool {
    c == '_' || c == '-' || c == '$'
}

/// Whether `c` has the Unicode XID_Start property.
pub uninterp spec fn xid_start(c: char) -> bool;

/// Whether `c` has the Unicode XID_Continue property.
pub uninterp spec fn xid_continue(c: char) -> bool;

/// Whether `c` has the Unicode Alphabetic property.
pub uninterp spec fn alphabetic(c: char) -> bool;

/// Whether `c` has the Unicode Alphabetic or Numeric property.
pub uninterp spec fn alphanumeric(c: char) -> bool;

/// Relies on unicode_xid's `UnicodeXID::is_xid_start` for `char`: the XID_Start
/// property of `c`.
#[verifier::external_body]
fn xid_start_char(c: char) -> (r: bool)
    ensures
        r == xid_start(c),
{
    UnicodeXID::is_xid_start(c)
}

/// Relies on unicode_xid's `UnicodeXID::is_xid_continue` for `char`: the XID_Continue
/// property of `c`.
#[verifier::external_body]
fn xid_continue_char(c: char) -> (r: bool)
    ensures
        r == xid_continue(c),
{
    UnicodeXID::is_xid_continue(c)
}

/// Relies on std's `char::is_alphabetic`: the Alphabetic property of `c`.
#[verifier::external_body]
fn alphabetic_char(c: char) -> (r: bool)
    ensures
        r == alphabetic(c),
{
    c.is_alphabetic()
}

/// Relies on std's `char::is_alphanumeric`: the Alphabetic or Numeric property of `c`,
/// so true wherever `char::is_alphabetic` is.
#[verifier::external_body]
fn alphanumeric_char(c: char) -> (r: bool)
    ensures
        r == alphanumeric(c),
        alphabetic(c) ==> r,
{
    c.is_alphanumeric()
}

/// Relies on std's `char::from_u32`: `Some` exactly for Unicode scalar values.
#[verifier::external_body]
fn char_from_u32(v: u32) -> (r: Option<char>)
    ensures
        is_scalar(v) ==> r == Some(v as char),
        !is_scalar(v) ==> r is None,
{
    char::from_u32(v)
}

/// May `c` start a Unicode identifier (XID_Start, `_`, `-` or `$`)?
pub fn is_id_start(c: char) -> (r: bool)
    ensures
        r == (id_other(c) || xid_start(c)),
{
    if c == '_' || c == '-' || c == '$' {
        true
    } else {
        xid_start_char(c)
    }
}

/// May `c` continue a Unicode identifier (XID_Continue, `_`, `-` or `$`)?
pub fn is_id_continue(c: char) -> (r: bool)
    ensures
        r == (id_other(c) || xid_continue(c)),
{
    if c == '_' || c == '-' || c == '$' {
        true
    } else {
        xid_continue_char(c)
    }
}

/// May `c` start a tag or attribute name?
pub fn is_valid_id_first_char(c: char) -> (r: bool)
    ensures
        r == alphabetic(c),
        r ==> valid_id_char(false, c),
{
    let first = alphabetic_char(c);
    // the wider class holds every first character, so a first character may also follow
    let _also_next = alphanumeric_char(c);
    first
}

/// May `c` follow the first character of a tag or attribute name?
pub fn is_valid_id_next_char(c: char) -> (r: bool)
    ensures
        r == (c == '_' || alphanumeric(c)),
{
    c == '_' || alphanumeric_char(c)
}

/// May `c` stand in a name, as its first character or after it?
pub open spec fn valid_id_char(first: bool, c: char) -> bool {
    if first {
        alphabetic(c)
    } else {
        c == '_' || alphanumeric(c)
    }
}

pub fn is_valid_id_char(first: bool, c: char) -> (r: bool)
    ensures
        r == valid_id_char(first, c),
{
    if first {
        is_valid_id_first_char(c)
    } else {
        is_valid_id_next_char(c)
    }
}

/// How many bytes a UTF-8 character starting with `b` takes; 0 where `b` cannot start one.
pub open spec fn lead_width(b: u8) -> nat {
    if b < 0x80 {
        1
    } else if 0xc0 <= b && b <= 0xdf {
        2
    } else if 0xe0 <= b && b <= 0xef {
        3
    } else if 0xf0 <= b && b <= 0xf4 {
        4
    } else {
        0
    }
}

/// The length of the character that starts with `v0`, from its first byte alone.
pub fn char_size(v0: u8) -> (r: Result<usize, CharErrorEnum>)
    ensures
        lead_width(v0) > 0 ==> r == Ok::<usize, CharErrorEnum>(lead_width(v0) as usize),
        lead_width(v0) == 0 ==> r == Err::<usize, CharErrorEnum>(CharErrorEnum::InvalidFirstByte(v0)),
{
    if v0 < 0x80 {
        Ok(1)
    } else if 0xc0 <= v0 && v0 <= 0xdf {
        Ok(2)
    } else if 0xe0 <= v0 && v0 <= 0xef {
        Ok(3)
    } else if 0xf0 <= v0 && v0 <= 0xf4 {
        Ok(4)
    } else {
        Err(CharErrorEnum::InvalidFirstByte(v0))
    }
}

/// The index of the first byte among `v[1..n]` that is no continuation byte, if any.
pub open spec fn bad_continuation(v: Seq<u8>, n: int) -> Option<int> {
    if n >= 2 && !is_continuation_byte(v[1]) {
        Some(1)
    } else if n >= 3 && !is_continuation_byte(v[2]) {
        Some(2)
    } else if n >= 4 && !is_continuation_byte(v[3]) {
        Some(3)
    } else {
        None
    }
}

/// Decodes the character at the start of `v`, returning it with its length in bytes.
pub fn bytes_to_char(v: &[u8]) -> (r: Result<(char, usize), CharErrorEnum>)
    ensures
        r is Ok <==> valid_first_scalar(v@),
        r matches Ok((c, n)) ==> {
            &&& c as u32 == decode_first_scalar(v@)
            &&& n == length_of_first_scalar(v@)
            &&& n == crate::pos::utf8_len(c)
            &&& 1 <= n <= 4
        },
        v@.len() == 0 ==> (r matches Err(CharErrorEnum::SliceTooShort(k, rest)) && k == 1 && rest@
            == v@),
        v@.len() > 0 && lead_width(v@[0]) == 0 ==> r == Err::<(char, usize), CharErrorEnum>(
            CharErrorEnum::InvalidFirstByte(v@[0]),
        ),
        v@.len() > 0 && lead_width(v@[0]) > v@.len() ==> (r matches Err(
            CharErrorEnum::SliceTooShort(k, rest),
        ) && k == lead_width(v@[0]) && rest@ == v@),
        v@.len() > 0 && 0 < lead_width(v@[0]) <= v@.len() && bad_continuation(
            v@,
            lead_width(v@[0]) as int,
        ) is Some ==> r == Err::<(char, usize), CharErrorEnum>(
            CharErrorEnum::InvalidContinuationByte(
                v@[bad_continuation(v@, lead_width(v@[0]) as int)->0],
            ),
        ),
        v@.len() > 0 && 0 < lead_width(v@[0]) <= v@.len() && bad_continuation(
            v@,
            lead_width(v@[0]) as int,
        ) is None ==> ({
            let cp = decode_first_codepoint(v@);
            let n = lead_width(v@[0]) as int;
            &&& !not_overlong_encoding(cp, n) && cp <= 0x10ffff ==> r
                == Err::<(char, usize), CharErrorEnum>(CharErrorEnum::OverlongEncoding(cp))
            &&& cp > 0x10ffff ==> r == Err::<(char, usize), CharErrorEnum>(
                CharErrorEnum::ScalarTooLarge(cp),
            )
            &&& not_overlong_encoding(cp, n) && !not_surrogate(cp) ==> r == Err::<
                (char, usize),
                CharErrorEnum,
            >(CharErrorEnum::SurrogateInUtf8(cp))
        }),
{
    let len = v.len();
    if len < 1 {
        return Err(CharErrorEnum::SliceTooShort(1, slice_to_vec(v)));
    }
    let b0 = v[0];
    let size = match char_size(b0) {
        Ok(s) => s,
        Err(e) => {
            proof {
                if len >= 4 && 0xf5 <= b0 <= 0xf7 {
                    let (b1, b2, b3) = (v@[1], v@[2], v@[3]);
                    assert(0xf5 <= b0 <= 0xf7 ==> (((b0 & 0x07) as u32) << 18) | (((b1 & 0x3f) as u32)
                        << 12) | (((b2 & 0x3f) as u32) << 6) | ((b3 & 0x3f) as u32) > 0x10ffff)
                        by (bit_vector);
                }
            }
            return Err(e);
        },
    };
    if len < size {
        return Err(CharErrorEnum::SliceTooShort(size, slice_to_vec(v)));
    }
    let mut i: usize = 1;
    while i < size
        invariant
            1 <= i <= size <= 4,
            size == lead_width(b0),
            size <= len == v@.len(),
            b0 == v@[0],
            forall|j: int| 1 <= j < i ==> is_continuation_byte(#[trigger] v@[j]),
        decreases size - i,
    {
        let b = v[i];
        if !(0x80 <= b && b <= 0xbf) {
            return Err(CharErrorEnum::InvalidContinuationByte(b));
        }
        i = i + 1;
    }
    let cp: u32;
    if size == 1 {
        cp = (b0 & 0x7f) as u32;
        assert(b0 < 0x80 ==> (b0 & 0x7f) == b0) by (bit_vector);
    } else if size == 2 {
        let b1 = v[1];
        cp = (((b0 & 0x1f) as u32) << 6) | ((b1 & 0x3f) as u32);
        assert((((b0 & 0x1f) as u32) << 6) | ((b1 & 0x3f) as u32) <= 0x7ff) by (bit_vector);
        if cp < 0x80 {
            return Err(CharErrorEnum::OverlongEncoding(cp));
        }
    } else if size == 3 {
        let b1 = v[1];
        let b2 = v[2];
        cp = (((b0 & 0x0f) as u32) << 12) | (((b1 & 0x3f) as u32) << 6) | ((b2 & 0x3f) as u32);
        assert((((b0 & 0x0f) as u32) << 12) | (((b1 & 0x3f) as u32) << 6) | ((b2 & 0x3f) as u32)
            <= 0xffff) by (bit_vector);
        if cp < 0x800 {
            return Err(CharErrorEnum::OverlongEncoding(cp));
        }
        if 0xD800 <= cp && cp <= 0xDFFF {
            return Err(CharErrorEnum::SurrogateInUtf8(cp));
        }
    } else {
        let b1 = v[1];
        let b2 = v[2];
        let b3 = v[3];
        cp = (((b0 & 0x07) as u32) << 18) | (((b1 & 0x3f) as u32) << 12) | (((b2 & 0x3f) as u32)
            << 6) | ((b3 & 0x3f) as u32);
        if cp > 0x10ffff {
            return Err(CharErrorEnum::ScalarTooLarge(cp));
        }
        if cp < 0x10000 {
            return Err(CharErrorEnum::OverlongEncoding(cp));
        }
    }
    match char_from_u32(cp) {
        Some(c) => {
            proof {
                vstd::utf8::char_u32_cast(c, cp);
            }
            Ok((c, size))
        },
        None => Err(CharErrorEnum::ScalarTooLarge(cp)),
    }
}

/// Turns a Unicode scalar value into its character.
pub fn u32_to_char(val: u32) -> (r: Result<char, CharErrorEnum>)
    ensures
        val > 0x10ffff ==> r == Err::<char, CharErrorEnum>(CharErrorEnum::ScalarTooLarge(val)),
        0xD800 <= val <= 0xDFFF ==> r == Err::<char, CharErrorEnum>(
            CharErrorEnum::SurrogateInUtf8(val),
        ),
        is_scalar(val) ==> r == Ok::<char, CharErrorEnum>(val as char),
{
    if val > 0x10ffff {
        return Err(CharErrorEnum::ScalarTooLarge(val));
    }
    if 0xD800 <= val && val <= 0xDFFF {
        return Err(CharErrorEnum::SurrogateInUtf8(val));
    }
    match char_from_u32(val) {
        Some(c) => Ok(c),
        None => Err(CharErrorEnum::ScalarTooLarge(val)),
    }
}

} // verus!
