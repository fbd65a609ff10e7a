//! Text encodings: how file bytes become the UTF-8 text of a document, and
//! how that text becomes file bytes again.
//!
//! Decoding is total: what cannot be decoded becomes U+FFFD. Encoding is
//! exact for every character that the target encoding has, and puts `?` in
//! place of every character that it lacks.

use crate::unicode::decode_lossy;
use crate::unicode::{
    first_scalar, is_valid_utf8, lemma_encode_utf8_push, lemma_utf8_lossy_valid, push_scalar,
    push_utf8_lossy, utf8_lossy, REPLACEMENT,
};
use vstd::prelude::*;
use vstd::utf8::{
    encode_scalar, encode_utf8, is_scalar, pop_first_scalar, valid_first_scalar, valid_utf8,
};

verus! {

/// The encodings a document can be read from and written in.
#[derive(Clone, Copy, Debug, PartialEq, Eq, Structural)]
pub enum Encoding {
    /// UTF-8 without a byte-order mark.
    Utf8,
    /// UTF-8 that begins with the byte-order mark `EF BB BF`.
    Utf8Bom,
    /// UTF-16, little endian.
    Utf16Le,
    /// UTF-16, big endian.
    Utf16Be,
    /// Seven-bit ASCII.
    Ascii,
    /// ISO 8859-1.
    Latin1,
    /// Windows code page 1252.
    Windows1252,
    /// GB18030.
    Gb18030,
}

/// The byte written in place of a character that the target encoding
/// lacks: `?`.
pub const SUBSTITUTE: u8 = 0x3F;

/// The code point that byte `b` stands for in Windows-1252. The bytes
/// `80` to `9F` stand for punctuation and letters from elsewhere in
/// Unicode; the five of them that the code page leaves open stand for the
/// control characters of the same number. Every other byte stands for the
/// code point of its own number.
pub open spec fn windows1252_code(b: u8) -> u32 {
    match b {
        0x80 => 0x20AC,
        0x82 => 0x201A,
        0x83 => 0x0192,
        0x84 => 0x201E,
        0x85 => 0x2026,
        0x86 => 0x2020,
        0x87 => 0x2021,
        0x88 => 0x02C6,
        0x89 => 0x2030,
        0x8A => 0x0160,
        0x8B => 0x2039,
        0x8C => 0x0152,
        0x8E => 0x017D,
        0x91 => 0x2018,
        0x92 => 0x2019,
        0x93 => 0x201C,
        0x94 => 0x201D,
        0x95 => 0x2022,
        0x96 => 0x2013,
        0x97 => 0x2014,
        0x98 => 0x02DC,
        0x99 => 0x2122,
        0x9A => 0x0161,
        0x9B => 0x203A,
        0x9C => 0x0153,
        0x9E => 0x017E,
        0x9F => 0x0178,
        _ => b as u32,
    }
}

/// The byte that stands for code point `c` in Windows-1252, if there is
/// one.
pub open spec fn windows1252_byte(c: u32) -> Option<u8> {
    match c {
        0x20AC => Some(0x80u8),
        0x201A => Some(0x82u8),
        0x0192 => Some(0x83u8),
        0x201E => Some(0x84u8),
        0x2026 => Some(0x85u8),
        0x2020 => Some(0x86u8),
        0x2021 => Some(0x87u8),
        0x02C6 => Some(0x88u8),
        0x2030 => Some(0x89u8),
        0x0160 => Some(0x8Au8),
        0x2039 => Some(0x8Bu8),
        0x0152 => Some(0x8Cu8),
        0x017D => Some(0x8Eu8),
        0x2018 => Some(0x91u8),
        0x2019 => Some(0x92u8),
        0x201C => Some(0x93u8),
        0x201D => Some(0x94u8),
        0x2022 => Some(0x95u8),
        0x2013 => Some(0x96u8),
        0x2014 => Some(0x97u8),
        0x02DC => Some(0x98u8),
        0x2122 => Some(0x99u8),
        0x0161 => Some(0x9Au8),
        0x203A => Some(0x9Bu8),
        0x0153 => Some(0x9Cu8),
        0x017E => Some(0x9Eu8),
        0x0178 => Some(0x9Fu8),
        _ => if c <= 0xFF && windows1252_code(c as u8) == c {
            Some(c as u8)
        } else {
            None
        },
    }
}

/// The code point that byte `b` stands for in a single-byte encoding `d`;
/// U+FFFD where it stands for none.
pub open spec fn byte_code(b: u8, d: Encoding) -> u32 {
    match d {
        Encoding::Ascii => if b < 0x80 {
            b as u32
        } else {
            REPLACEMENT
        },
        Encoding::Windows1252 => windows1252_code(b),
        _ => b as u32,
    }
}

/// The 16-bit unit that two bytes make in the given byte order.
pub open spec fn utf16_unit(first: u8, second: u8, big_endian: bool) -> u16 {
    if big_endian {
        (first * 256 + second) as u16
    } else {
        (second * 256 + first) as u16
    }
}

/// The two bytes of a 16-bit unit in the given byte order.
pub open spec fn unit_bytes(unit: u16, big_endian: bool) -> Seq<u8> {
    if big_endian {
        seq![(unit / 256) as u8, (unit % 256) as u8]
    } else {
        seq![(unit % 256) as u8, (unit / 256) as u8]
    }
}

/// Whether `unit` is the first half of a surrogate pair.
pub open spec fn is_high_surrogate(unit: u16) -> bool {
    0xD800 <= unit <= 0xDBFF
}

/// Whether `unit` is the second half of a surrogate pair.
pub open spec fn is_low_surrogate(unit: u16) -> bool {
    0xDC00 <= unit <= 0xDFFF
}

/// The scalar value that a surrogate pair stands for.
pub open spec fn pair_scalar(high: u16, low: u16) -> u32 {
    (0x10000 + (high - 0xD800) * 0x400 + (low - 0xDC00)) as u32
}

/// Whether a surrogate pair begins `bytes`.
pub open spec fn begins_with_pair(bytes: Seq<u8>, big_endian: bool) -> bool {
    &&& bytes.len() >= 4
    &&& is_high_surrogate(utf16_unit(bytes[0], bytes[1], big_endian))
    &&& is_low_surrogate(utf16_unit(bytes[2], bytes[3], big_endian))
}

/// The characters that `bytes` stand for as UTF-16 in the given byte
/// order. A surrogate without its partner, and a single byte left over at
/// the end, each become U+FFFD.
pub open spec fn utf16_chars(bytes: Seq<u8>, big_endian: bool) -> Seq<char>
    decreases bytes.len(),
{
    if bytes.len() == 0 {
        Seq::empty()
    } else if bytes.len() == 1 {
        seq![REPLACEMENT as char]
    } else {
        let unit = utf16_unit(bytes[0], bytes[1], big_endian);
        if begins_with_pair(bytes, big_endian) {
            seq![pair_scalar(unit, utf16_unit(bytes[2], bytes[3], big_endian)) as char]
                + utf16_chars(bytes.subrange(4, bytes.len() as int), big_endian)
        } else if is_high_surrogate(unit) || is_low_surrogate(unit) {
            seq![REPLACEMENT as char] + utf16_chars(
                bytes.subrange(2, bytes.len() as int),
                big_endian,
            )
        } else {
            seq![(unit as u32) as char] + utf16_chars(
                bytes.subrange(2, bytes.len() as int),
                big_endian,
            )
        }
    }
}

/// Whether `bytes` are well-formed UTF-16 in the given byte order: whole
/// units, with every surrogate in a pair.
pub open spec fn utf16_well_formed(bytes: Seq<u8>, big_endian: bool) -> bool
    decreases bytes.len(),
{
    if bytes.len() == 0 {
        true
    } else if bytes.len() == 1 {
        false
    } else {
        let unit = utf16_unit(bytes[0], bytes[1], big_endian);
        if begins_with_pair(bytes, big_endian) {
            utf16_well_formed(bytes.subrange(4, bytes.len() as int), big_endian)
        } else if is_high_surrogate(unit) || is_low_surrogate(unit) {
            false
        } else {
            utf16_well_formed(bytes.subrange(2, bytes.len() as int), big_endian)
        }
    }
}

/// The bytes of scalar value `c` as UTF-16 in the given byte order: one
/// unit, or a surrogate pair for a value beyond the basic plane.
pub open spec fn utf16_bytes(c: u32, big_endian: bool) -> Seq<u8> {
    if c < 0x10000 {
        unit_bytes(c as u16, big_endian)
    } else {
        unit_bytes((0xD800 + (c - 0x10000) / 0x400) as u16, big_endian) + unit_bytes(
            (0xDC00 + (c - 0x10000) % 0x400) as u16,
            big_endian,
        )
    }
}

/// The bytes that stand for character `c` in encoding `d`; `?` where `d`
/// has no such character. For UTF-8 they are the UTF-8 bytes of the
/// character, and so they are for GB18030, whose own bytes are not told
/// character by character.
pub open spec fn char_bytes(c: char, d: Encoding) -> Seq<u8> {
    match d {
        Encoding::Utf8 | Encoding::Utf8Bom | Encoding::Gb18030 => encode_scalar(c as u32),
        Encoding::Utf16Le => utf16_bytes(c as u32, false),
        Encoding::Utf16Be => utf16_bytes(c as u32, true),
        Encoding::Ascii => if (c as u32) < 0x80 {
            seq![(c as u32) as u8]
        } else {
            seq![SUBSTITUTE]
        },
        Encoding::Latin1 => if (c as u32) <= 0xFF {
            seq![(c as u32) as u8]
        } else {
            seq![SUBSTITUTE]
        },
        Encoding::Windows1252 => match windows1252_byte(c as u32) {
            Some(b) => seq![b],
            None => seq![SUBSTITUTE],
        },
    }
}

/// The bytes that stand for `chars` in encoding `d`, character by
/// character.
pub open spec fn bytes_of(chars: Seq<char>, d: Encoding) -> Seq<u8>
    decreases chars.len(),
{
    if chars.len() == 0 {
        Seq::empty()
    } else {
        bytes_of(chars.drop_last(), d) + char_bytes(chars.last(), d)
    }
}

/// What GB18030 decoding makes of `bytes`: the characters, with U+FFFD in
/// place of malformed sequences, and whether there was any such sequence.
pub uninterp spec fn gb18030_decoded(bytes: Seq<u8>) -> (Seq<char>, bool);

/// What GB18030 encoding makes of `text`: the bytes, and whether any
/// character had to be written in another form because GB18030 lacks it.
pub uninterp spec fn gb18030_encoded(text: Seq<char>) -> (Seq<u8>, bool);

/// The characters that `bytes` stand for in encoding `d`. A byte-order
/// mark is not looked for: it counts as a character like any other.
pub open spec fn chars_of(bytes: Seq<u8>, d: Encoding) -> Seq<char> {
    match d {
        Encoding::Utf8 | Encoding::Utf8Bom => utf8_lossy(bytes),
        Encoding::Utf16Le => utf16_chars(bytes, false),
        Encoding::Utf16Be => utf16_chars(bytes, true),
        Encoding::Gb18030 => gb18030_decoded(bytes).0,
        _ => Seq::new(bytes.len(), |i: int| byte_code(bytes[i], d) as char),
    }
}

/// The UTF-8 text that decoding `bytes` from encoding `d` gives.
pub open spec fn decoded(bytes: Seq<u8>, d: Encoding) -> Seq<u8> {
    encode_utf8(chars_of(bytes, d))
}

/// The bytes that encoding the UTF-8 text `text` in encoding `d` gives.
/// UTF-8 is written as it stands. For every other encoding the text is
/// read as UTF-8, with U+FFFD for what is broken, and its characters are
/// written in `d`.
pub open spec fn encoded(text: Seq<u8>, d: Encoding) -> Seq<u8> {
    match d {
        Encoding::Utf8 | Encoding::Utf8Bom => text,
        Encoding::Gb18030 => gb18030_encoded(utf8_lossy(text)).0,
        _ => bytes_of(utf8_lossy(text), d),
    }
}

/// Whether `bytes` hold only what encoding `d` can represent, so that
/// decoding them loses nothing. Of GB18030 nothing is claimed.
pub open spec fn valid_for(bytes: Seq<u8>, d: Encoding) -> bool {
    match d {
        Encoding::Utf8 | Encoding::Utf8Bom => valid_utf8(bytes),
        Encoding::Utf16Le => utf16_well_formed(bytes, false),
        Encoding::Utf16Be => utf16_well_formed(bytes, true),
        Encoding::Ascii => forall|i: int| 0 <= i < bytes.len() ==> #[trigger] bytes[i] < 0x80,
        Encoding::Latin1 | Encoding::Windows1252 => true,
        Encoding::Gb18030 => false,
    }
}

/// Writing characters followed by one more writes the characters and then
/// the one.
pub proof fn lemma_bytes_of_push(chars: Seq<char>, c: char, d: Encoding)
    ensures
        bytes_of(chars.push(c), d) == bytes_of(chars, d) + char_bytes(c, d),
{
    assert(chars.push(c).drop_last() =~= chars);
}

/// Writing one character followed by others writes the one and then the
/// others.
pub proof fn lemma_bytes_of_first(c: char, chars: Seq<char>, d: Encoding)
    ensures
        bytes_of(seq![c] + chars, d) == char_bytes(c, d) + bytes_of(chars, d),
    decreases chars.len(),
{
    if chars.len() == 0 {
        assert(seq![c] + chars =~= seq![c]);
        assert(seq![c].drop_last() =~= Seq::<char>::empty());
        assert(seq![c].last() == c);
        assert(bytes_of(Seq::<char>::empty(), d) =~= Seq::<u8>::empty());
        assert(bytes_of(seq![c], d) == bytes_of(seq![c].drop_last(), d) + char_bytes(c, d));
        assert(bytes_of(seq![c], d) =~= char_bytes(c, d));
        assert(char_bytes(c, d) + bytes_of(chars, d) =~= char_bytes(c, d));
    } else {
        lemma_bytes_of_first(c, chars.drop_last(), d);
        assert((seq![c] + chars).drop_last() =~= seq![c] + chars.drop_last());
        assert((seq![c] + chars).last() == chars.last());
        assert(bytes_of(seq![c] + chars, d) =~= char_bytes(c, d) + bytes_of(chars, d));
    }
}

/// Each byte of Windows-1252 comes back from the code point it stands for.
pub proof fn lemma_windows1252_inverse(b: u8)
    ensures
        windows1252_byte(windows1252_code(b)) == Some(b),
        is_scalar(windows1252_code(b)),
{
}

/// A surrogate pair comes back from the scalar value it stands for, and a
/// unit from its two bytes.
pub proof fn lemma_utf16_pair_inverse(first: u8, second: u8, third: u8, fourth: u8, big_endian: bool)
    requires
        is_high_surrogate(utf16_unit(first, second, big_endian)),
        is_low_surrogate(utf16_unit(third, fourth, big_endian)),
    ensures
        is_scalar(
            pair_scalar(
                utf16_unit(first, second, big_endian),
                utf16_unit(third, fourth, big_endian),
            ),
        ),
        utf16_bytes(
            pair_scalar(
                utf16_unit(first, second, big_endian),
                utf16_unit(third, fourth, big_endian),
            ),
            big_endian,
        ) == seq![first, second, third, fourth],
{
    let high = utf16_unit(first, second, big_endian);
    let low = utf16_unit(third, fourth, big_endian);
    let c = pair_scalar(high, low);
    assert(c == 0x10000 + (high - 0xD800) * 0x400 + (low - 0xDC00));
    assert((c - 0x10000) / 0x400 == high - 0xD800);
    assert((c - 0x10000) % 0x400 == low - 0xDC00);
    lemma_unit_bytes_inverse(first, second, big_endian);
    lemma_unit_bytes_inverse(third, fourth, big_endian);
    assert(utf16_bytes(c, big_endian) =~= seq![first, second, third, fourth]);
}

/// A unit comes back from its two bytes.
pub proof fn lemma_unit_bytes_inverse(first: u8, second: u8, big_endian: bool)
    ensures
        unit_bytes(utf16_unit(first, second, big_endian), big_endian) == seq![first, second],
{
    let unit = utf16_unit(first, second, big_endian);
    if big_endian {
        assert(unit == first * 256 + second);
        assert(unit / 256 == first && unit % 256 == second);
    } else {
        assert(unit == second * 256 + first);
        assert(unit / 256 == second && unit % 256 == first);
    }
    assert(unit_bytes(unit, big_endian) =~= seq![first, second]);
}

/// Well-formed UTF-16 comes back from the characters it stands for.
pub proof fn lemma_utf16_round_trip(bytes: Seq<u8>, big_endian: bool)
    requires
        utf16_well_formed(bytes, big_endian),
    ensures
        bytes_of(
            utf16_chars(bytes, big_endian),
            if big_endian {
                Encoding::Utf16Be
            } else {
                Encoding::Utf16Le
            },
        ) == bytes,
    decreases bytes.len(),
{
    let d = if big_endian {
        Encoding::Utf16Be
    } else {
        Encoding::Utf16Le
    };
    if bytes.len() > 0 {
        let unit = utf16_unit(bytes[0], bytes[1], big_endian);
        if begins_with_pair(bytes, big_endian) {
            let rest = bytes.subrange(4, bytes.len() as int);
            let c = pair_scalar(unit, utf16_unit(bytes[2], bytes[3], big_endian));
            lemma_utf16_round_trip(rest, big_endian);
            lemma_utf16_pair_inverse(bytes[0], bytes[1], bytes[2], bytes[3], big_endian);
            lemma_bytes_of_first(c as char, utf16_chars(rest, big_endian), d);
            assert((c as char) as u32 == c);
            assert(seq![bytes[0], bytes[1], bytes[2], bytes[3]] + rest =~= bytes);
        } else {
            let rest = bytes.subrange(2, bytes.len() as int);
            let c = unit as u32;
            lemma_utf16_round_trip(rest, big_endian);
            lemma_unit_bytes_inverse(bytes[0], bytes[1], big_endian);
            lemma_bytes_of_first(c as char, utf16_chars(rest, big_endian), d);
            assert((c as char) as u32 == c);
            assert(seq![bytes[0], bytes[1]] + rest =~= bytes);
        }
    }
}

/// In a single-byte encoding, bytes that the encoding can represent come
/// back from the characters they stand for.
pub proof fn lemma_single_byte_round_trip(bytes: Seq<u8>, d: Encoding)
    requires
        d == Encoding::Ascii || d == Encoding::Latin1 || d == Encoding::Windows1252,
        valid_for(bytes, d),
    ensures
        bytes_of(chars_of(bytes, d), d) == bytes,
    decreases bytes.len(),
{
    let chars = chars_of(bytes, d);
    if bytes.len() == 0 {
        assert(bytes_of(chars, d) =~= bytes);
    } else {
        let front = bytes.drop_last();
        lemma_single_byte_round_trip(front, d);
        assert(chars.drop_last() =~= chars_of(front, d));
        let b = bytes.last();
        let code = byte_code(b, d);
        lemma_windows1252_inverse(b);
        assert(chars.last() == code as char);
        assert((code as char) as u32 == code);
        assert(char_bytes(chars.last(), d) =~= seq![b]);
        assert(front + seq![b] =~= bytes);
    }
}

/// The round trip: bytes that hold only what their encoding can represent
/// come back unchanged when they are decoded and the text is encoded
/// again.
pub proof fn lemma_round_trip(bytes: Seq<u8>, d: Encoding)
    requires
        valid_for(bytes, d),
    ensures
        encoded(decoded(bytes, d), d) == bytes,
{
    let chars = chars_of(bytes, d);
    vstd::utf8::encode_utf8_valid_utf8(chars);
    vstd::utf8::encode_utf8_decode_utf8(chars);
    lemma_utf8_lossy_valid(encode_utf8(chars));
    match d {
        Encoding::Utf8 | Encoding::Utf8Bom => {
            lemma_utf8_lossy_valid(bytes);
            vstd::utf8::decode_utf8_encode_utf8(bytes);
        },
        Encoding::Utf16Le => {
            lemma_utf16_round_trip(bytes, false);
        },
        Encoding::Utf16Be => {
            lemma_utf16_round_trip(bytes, true);
        },
        Encoding::Gb18030 => {},
        _ => {
            lemma_single_byte_round_trip(bytes, d);
        },
    }
}

/// Calls `decode_without_bom_handling` of `encoding_rs::GB18030` and takes
/// ownership of the text it returns. The call is a function of the bytes
/// alone and yields, for every input, a string with U+FFFD in place of
/// malformed sequences and a flag that tells whether there were any; which
/// string and which flag is left to `gb18030_decoded`. The length limit
/// keeps the size of the output buffer, which the callee computes with
/// checked arithmetic, within the machine's word.
#[verifier::external_body]
fn gb18030_decode(bytes: &[u8]) -> (r: (String, bool))
    requires
        bytes@.len() <= usize::MAX / 16,
    ensures
        r.0@ == gb18030_decoded(bytes@).0,
        r.1 == gb18030_decoded(bytes@).1,
{
    let (text, had_errors) = encoding_rs::GB18030.decode_without_bom_handling(bytes);
    (text.into_owned(), had_errors)
}

/// Calls `encode` of `encoding_rs::GB18030` and takes ownership of the
/// bytes it returns. The call is a function of the string alone and
/// yields bytes and a flag that tells whether there were characters that
/// GB18030 lacks; which bytes and which flag is left to `gb18030_encoded`.
/// The length limit keeps the size of the output buffer, which the callee
/// computes with checked arithmetic, within the machine's word.
#[verifier::external_body]
fn gb18030_encode(text: &str) -> (r: (Vec<u8>, bool))
    requires
        encode_utf8(text@).len() <= usize::MAX / 16,
    ensures
        r.0@ == gb18030_encoded(text@).0,
        r.1 == gb18030_encoded(text@).1,
{
    let (bytes, _, had_errors) = encoding_rs::GB18030.encode(text);
    (bytes.into_owned(), had_errors)
}

/// The code point that byte `b` stands for in Windows-1252.
pub fn windows1252_decode(b: u8) -> (c: u32)
    ensures
        c == windows1252_code(b),
{
    match b {
        0x80 => 0x20AC,
        0x82 => 0x201A,
        0x83 => 0x0192,
        0x84 => 0x201E,
        0x85 => 0x2026,
        0x86 => 0x2020,
        0x87 => 0x2021,
        0x88 => 0x02C6,
        0x89 => 0x2030,
        0x8A => 0x0160,
        0x8B => 0x2039,
        0x8C => 0x0152,
        0x8E => 0x017D,
        0x91 => 0x2018,
        0x92 => 0x2019,
        0x93 => 0x201C,
        0x94 => 0x201D,
        0x95 => 0x2022,
        0x96 => 0x2013,
        0x97 => 0x2014,
        0x98 => 0x02DC,
        0x99 => 0x2122,
        0x9A => 0x0161,
        0x9B => 0x203A,
        0x9C => 0x0153,
        0x9E => 0x017E,
        0x9F => 0x0178,
        _ => b as u32,
    }
}

/// The byte that stands for code point `c` in Windows-1252, if there is
/// one.
pub fn windows1252_encode(c: u32) -> (r: Option<u8>)
    ensures
        r == windows1252_byte(c),
{
    match c {
        0x20AC => Some(0x80u8),
        0x201A => Some(0x82u8),
        0x0192 => Some(0x83u8),
        0x201E => Some(0x84u8),
        0x2026 => Some(0x85u8),
        0x2020 => Some(0x86u8),
        0x2021 => Some(0x87u8),
        0x02C6 => Some(0x88u8),
        0x2030 => Some(0x89u8),
        0x0160 => Some(0x8Au8),
        0x2039 => Some(0x8Bu8),
        0x0152 => Some(0x8Cu8),
        0x017D => Some(0x8Eu8),
        0x2018 => Some(0x91u8),
        0x2019 => Some(0x92u8),
        0x201C => Some(0x93u8),
        0x201D => Some(0x94u8),
        0x2022 => Some(0x95u8),
        0x2013 => Some(0x96u8),
        0x2014 => Some(0x97u8),
        0x02DC => Some(0x98u8),
        0x2122 => Some(0x99u8),
        0x0161 => Some(0x9Au8),
        0x203A => Some(0x9Bu8),
        0x0153 => Some(0x9Cu8),
        0x017E => Some(0x9Eu8),
        0x0178 => Some(0x9Fu8),
        _ => {
            if c <= 0xFF {
                let b = #[verifier::truncate] (c as u8);
                if windows1252_decode(b) == c {
                    Some(b)
                } else {
                    None
                }
            } else {
                None
            }
        },
    }
}

/// The 16-bit unit that two bytes make in the given byte order.
fn read_unit(first: u8, second: u8, big_endian: bool) -> (unit: u16)
    ensures
        unit == utf16_unit(first, second, big_endian),
{
    let high: u16 = if big_endian {
        first as u16
    } else {
        second as u16
    };
    let low: u16 = if big_endian {
        second as u16
    } else {
        first as u16
    };
    high * 256 + low
}

/// Appends the two bytes of `unit` in the given byte order to `out`.
fn push_unit(out: &mut Vec<u8>, unit: u16, big_endian: bool)
    ensures
        final(out)@ == old(out)@ + unit_bytes(unit, big_endian),
{
    let high = #[verifier::truncate] ((unit / 256) as u8);
    let low = #[verifier::truncate] ((unit % 256) as u8);
    if big_endian {
        out.push(high);
        out.push(low);
    } else {
        out.push(low);
        out.push(high);
    }
    assert(out@ =~= old(out)@ + unit_bytes(unit, big_endian));
}

/// Appends to `out` the bytes that stand for the scalar value `scalar` in
/// encoding `d`.
pub fn push_char(out: &mut Vec<u8>, scalar: u32, d: Encoding)
    requires
        is_scalar(scalar),
    ensures
        final(out)@ == old(out)@ + char_bytes(scalar as char, d),
{
    assert((scalar as char) as u32 == scalar);
    match d {
        Encoding::Utf8 | Encoding::Utf8Bom | Encoding::Gb18030 => {
            push_scalar(out, scalar);
        },
        Encoding::Utf16Le | Encoding::Utf16Be => {
            let big_endian = d == Encoding::Utf16Be;
            if scalar < 0x10000 {
                push_unit(out, #[verifier::truncate] (scalar as u16), big_endian);
            } else {
                let rest = scalar - 0x10000;
                let ghost before = out@;
                push_unit(out, #[verifier::truncate] ((0xD800 + rest / 0x400) as u16), big_endian);
                push_unit(out, #[verifier::truncate] ((0xDC00 + rest % 0x400) as u16), big_endian);
                assert(out@ =~= before + utf16_bytes(scalar, big_endian));
            }
        },
        Encoding::Ascii => {
            if scalar < 0x80 {
                out.push(#[verifier::truncate] (scalar as u8));
            } else {
                out.push(SUBSTITUTE);
            }
            assert(out@ =~= old(out)@ + char_bytes(scalar as char, d));
        },
        Encoding::Latin1 => {
            if scalar <= 0xFF {
                out.push(#[verifier::truncate] (scalar as u8));
            } else {
                out.push(SUBSTITUTE);
            }
            assert(out@ =~= old(out)@ + char_bytes(scalar as char, d));
        },
        Encoding::Windows1252 => {
            match windows1252_encode(scalar) {
                Some(b) => out.push(b),
                None => out.push(SUBSTITUTE),
            }
            assert(out@ =~= old(out)@ + char_bytes(scalar as char, d));
        },
    }
}

/// Decodes `bytes` as UTF-16 in the given byte order into UTF-8 text.
fn decode_utf16(bytes: &[u8], big_endian: bool) -> (text: Vec<u8>)
    ensures
        text@ == encode_utf8(utf16_chars(bytes@, big_endian)),
{
    let n = bytes.len();
    let mut out: Vec<u8> = Vec::new();
    let mut i: usize = 0;
    let ghost mut done: Seq<char> = Seq::empty();
    proof {
        assert(bytes@.subrange(0, n as int) =~= bytes@);
    }
    while i < n
        invariant
            0 <= i <= n,
            n == bytes@.len(),
            done + utf16_chars(bytes@.subrange(i as int, n as int), big_endian) == utf16_chars(
                bytes@,
                big_endian,
            ),
            out@ == encode_utf8(done),
        decreases n - i,
    {
        let ghost rest = bytes@.subrange(i as int, n as int);
        let mut scalar: u32 = REPLACEMENT;
        let mut width: usize = 1;
        if n - i >= 2 {
            let unit = read_unit(bytes[i], bytes[i + 1], big_endian);
            assert(rest[0] == bytes@[i as int] && rest[1] == bytes@[i + 1]);
            width = 2;
            if 0xD800 <= unit && unit <= 0xDBFF {
                if n - i >= 4 {
                    let low = read_unit(bytes[i + 2], bytes[i + 3], big_endian);
                    assert(rest[2] == bytes@[i + 2] && rest[3] == bytes@[i + 3]);
                    if 0xDC00 <= low && low <= 0xDFFF {
                        scalar = 0x10000 + ((unit - 0xD800) as u32) * 0x400 + ((low
                            - 0xDC00) as u32);
                        width = 4;
                    }
                }
            } else if !(0xDC00 <= unit && unit <= 0xDFFF) {
                scalar = unit as u32;
            }
        }
        push_scalar(&mut out, scalar);
        proof {
            let c = scalar as char;
            assert(c as u32 == scalar);
            let after = bytes@.subrange(i + width, n as int);
            assert(rest.subrange(width as int, rest.len() as int) =~= after);
            assert(utf16_chars(rest, big_endian) == seq![c] + utf16_chars(after, big_endian));
            assert(done.push(c) + utf16_chars(after, big_endian) =~= done + utf16_chars(
                rest,
                big_endian,
            ));
            lemma_encode_utf8_push(done, c);
            done = done.push(c);
        }
        i += width;
    }
    proof {
        assert(bytes@.subrange(n as int, n as int) =~= Seq::<u8>::empty());
        assert(done + Seq::<char>::empty() =~= done);
    }
    out
}

/// Decodes `bytes` from the single-byte encoding `d` into UTF-8 text.
fn decode_single_byte(bytes: &[u8], d: Encoding) -> (text: Vec<u8>)
    requires
        d == Encoding::Ascii || d == Encoding::Latin1 || d == Encoding::Windows1252,
    ensures
        text@ == decoded(bytes@, d),
{
    let n = bytes.len();
    let mut out: Vec<u8> = Vec::new();
    let mut i: usize = 0;
    while i < n
        invariant
            0 <= i <= n,
            n == bytes@.len(),
            d == Encoding::Ascii || d == Encoding::Latin1 || d == Encoding::Windows1252,
            out@ == encode_utf8(Seq::new(i as nat, |k: int| byte_code(bytes@[k], d) as char)),
        decreases n - i,
    {
        let b = bytes[i];
        let scalar: u32 = match d {
            Encoding::Ascii => if b < 0x80 {
                b as u32
            } else {
                REPLACEMENT
            },
            Encoding::Windows1252 => windows1252_decode(b),
            _ => b as u32,
        };
        proof {
            lemma_windows1252_inverse(b);
        }
        push_scalar(&mut out, scalar);
        proof {
            let done = Seq::new(i as nat, |k: int| byte_code(bytes@[k], d) as char);
            let c = scalar as char;
            assert(c as u32 == scalar);
            lemma_encode_utf8_push(done, c);
            assert(done.push(c) =~= Seq::new(
                (i + 1) as nat,
                |k: int| byte_code(bytes@[k], d) as char,
            ));
        }
        i += 1;
    }
    proof {
        assert(Seq::new(n as nat, |k: int| byte_code(bytes@[k], d) as char) =~= chars_of(
            bytes@,
            d,
        ));
    }
    out
}

/// A copy of `bytes`.
fn copy_bytes(bytes: &[u8]) -> (out: Vec<u8>)
    ensures
        out@ == bytes@,
{
    let mut out: Vec<u8> = Vec::new();
    let mut i: usize = 0;
    while i < bytes.len()
        invariant
            0 <= i <= bytes@.len(),
            out@ == bytes@.subrange(0, i as int),
        decreases bytes@.len() - i,
    {
        out.push(bytes[i]);
        proof {
            assert(out@ =~= bytes@.subrange(0, i + 1));
        }
        i += 1;
    }
    proof {
        assert(bytes@.subrange(0, bytes@.len() as int) =~= bytes@);
    }
    out
}

/// Decodes `bytes` from encoding `d` into UTF-8 text. Every input decodes:
/// what is malformed becomes U+FFFD. A byte-order mark is not looked for.
pub fn decode(bytes: &[u8], d: Encoding) -> (text: Vec<u8>)
    requires
        d == Encoding::Gb18030 ==> bytes@.len() <= usize::MAX / 16,
    ensures
        text@ == decoded(bytes@, d),
        valid_utf8(text@),
{
    proof {
        vstd::utf8::encode_utf8_valid_utf8(chars_of(bytes@, d));
    }
    match d {
        Encoding::Utf8 | Encoding::Utf8Bom => {
            let mut out: Vec<u8> = Vec::new();
            push_utf8_lossy(&mut out, bytes);
            proof {
                assert(Seq::<u8>::empty() + encode_utf8(utf8_lossy(bytes@)) =~= encode_utf8(
                    utf8_lossy(bytes@),
                ));
            }
            out
        },
        Encoding::Utf16Le => decode_utf16(bytes, false),
        Encoding::Utf16Be => decode_utf16(bytes, true),
        Encoding::Gb18030 => {
            let (text, _) = gb18030_decode(bytes);
            copy_bytes(text.as_str().as_bytes())
        },
        _ => decode_single_byte(bytes, d),
    }
}

/// Encodes the UTF-8 text `text` in encoding `d`. UTF-8 is written as it
/// stands. For every other encoding, what is broken in the text counts as
/// U+FFFD, and a character that `d` lacks is written as `?`.
pub fn encode(text: &[u8], d: Encoding) -> (bytes: Vec<u8>)
    requires
        d == Encoding::Gb18030 ==> text@.len() <= usize::MAX / 64,
    ensures
        bytes@ == encoded(text@, d),
{
    match d {
        Encoding::Utf8 | Encoding::Utf8Bom => copy_bytes(text),
        Encoding::Gb18030 => {
            let mut sound: Vec<u8> = Vec::new();
            push_utf8_lossy(&mut sound, text);
            proof {
                let chars = utf8_lossy(text@);
                assert(Seq::<u8>::empty() + encode_utf8(chars) =~= encode_utf8(chars));
                vstd::utf8::encode_utf8_valid_utf8(chars);
                vstd::utf8::encode_utf8_decode_utf8(chars);
            }
            let sound_text = decode_lossy(sound.as_slice());
            gb18030_encode(sound_text.as_str()).0
        },
        _ => {
            let n = text.len();
            let mut out: Vec<u8> = Vec::new();
            let mut i: usize = 0;
            let ghost mut done: Seq<char> = Seq::empty();
            proof {
                assert(text@.subrange(0, n as int) =~= text@);
            }
            while i < n
                invariant
                    0 <= i <= n,
                    n == text@.len(),
                    done + utf8_lossy(text@.subrange(i as int, n as int)) == utf8_lossy(text@),
                    out@ == bytes_of(done, d),
                decreases n - i,
            {
                let ghost rest = text@.subrange(i as int, n as int);
                let (scalar, width) = match first_scalar(text, i) {
                    Some(found) => found,
                    None => (REPLACEMENT, 1),
                };
                push_char(&mut out, scalar, d);
                proof {
                    let c = scalar as char;
                    let after = text@.subrange(i + width, n as int);
                    if valid_first_scalar(rest) {
                        assert(pop_first_scalar(rest) =~= after);
                    } else {
                        assert(rest.subrange(1, rest.len() as int) =~= after);
                    }
                    assert(utf8_lossy(rest) == seq![c] + utf8_lossy(after));
                    assert(done.push(c) + utf8_lossy(after) =~= done + utf8_lossy(rest));
                    lemma_bytes_of_push(done, c, d);
                    done = done.push(c);
                }
                i += width;
            }
            proof {
                assert(text@.subrange(n as int, n as int) =~= Seq::<u8>::empty());
                assert(done + Seq::<char>::empty() =~= done);
            }
            out
        },
    }
}

/// The byte-order mark that files in encoding `d` may begin with; empty
/// for the encodings that have none.
pub open spec fn bom_of(d: Encoding) -> Seq<u8> {
    match d {
        Encoding::Utf8Bom => seq![0xEFu8, 0xBBu8, 0xBFu8],
        Encoding::Utf16Le => seq![0xFFu8, 0xFEu8],
        Encoding::Utf16Be => seq![0xFEu8, 0xFFu8],
        _ => Seq::empty(),
    }
}

/// Whether `bytes` begin with the byte-order mark of encoding `d`.
pub open spec fn has_bom(bytes: Seq<u8>, d: Encoding) -> bool {
    &&& 0 < bom_of(d).len() <= bytes.len()
    &&& bytes.subrange(0, bom_of(d).len() as int) == bom_of(d)
}

/// What of `bytes` is text in encoding `d`: all but the byte-order mark of
/// `d`, if they begin with it.
pub open spec fn body_of(bytes: Seq<u8>, d: Encoding) -> Seq<u8> {
    if has_bom(bytes, d) {
        bytes.subrange(bom_of(d).len() as int, bytes.len() as int)
    } else {
        bytes
    }
}

/// The bytes of a file that holds the UTF-8 text `text` in encoding `d`,
/// with the byte-order mark of `d` in front if `with_bom`.
pub open spec fn file_bytes(text: Seq<u8>, d: Encoding, with_bom: bool) -> Seq<u8> {
    if with_bom {
        bom_of(d) + encoded(text, d)
    } else {
        encoded(text, d)
    }
}

/// Whether every byte is below `80`.
pub open spec fn is_ascii_bytes(bytes: Seq<u8>) -> bool {
    forall|i: int| 0 <= i < bytes.len() ==> #[trigger] bytes[i] < 0x80
}

/// Whether some byte lies in the range `80` to `9F`, which Latin-1 leaves
/// to control characters and Windows-1252 fills with punctuation.
pub open spec fn has_high_control(bytes: Seq<u8>) -> bool {
    exists|i: int| 0 <= i < bytes.len() && 0x80 <= #[trigger] bytes[i] <= 0x9F
}

/// Whether `b` can begin a multi-byte sequence of GB18030.
pub open spec fn is_gb_lead(b: u8) -> bool {
    0x81 <= b <= 0xFE
}

/// Whether `b` is an ASCII digit, as the second and fourth byte of a
/// four-byte sequence of GB18030 are.
pub open spec fn is_gb_digit(b: u8) -> bool {
    0x30 <= b <= 0x39
}

/// How many bytes the sequence that begins `bytes` has if the bytes are
/// read as GB18030 text: 1 for an ASCII byte, 2 for a lead byte followed
/// by a high trail byte, 4 for lead, digit, lead, digit. 0 if none of
/// these begins `bytes`; a lead byte followed by an ASCII letter or by
/// the end counts as none, since that is how accented letters of the
/// Latin encodings stand between unaccented ones.
pub open spec fn gb_sequence_len(bytes: Seq<u8>) -> int {
    if bytes.len() == 0 {
        0
    } else if bytes[0] < 0x80 {
        1
    } else if bytes.len() >= 2 && is_gb_lead(bytes[0]) && 0x80 <= bytes[1] <= 0xFE {
        2
    } else if bytes.len() >= 4 && is_gb_lead(bytes[0]) && is_gb_digit(bytes[1]) && is_gb_lead(
        bytes[2],
    ) && is_gb_digit(bytes[3]) {
        4
    } else {
        0
    }
}

/// Whether `bytes` read as GB18030 text from front to back.
pub open spec fn gb18030_plausible(bytes: Seq<u8>) -> bool
    decreases bytes.len(),
{
    if bytes.len() == 0 {
        true
    } else if gb_sequence_len(bytes) == 0 {
        false
    } else {
        gb18030_plausible(bytes.subrange(gb_sequence_len(bytes), bytes.len() as int))
    }
}

/// The encoding that `bytes` are taken to be in. A byte-order mark
/// decides. Without one, an empty file is UTF-8; valid UTF-8 is ASCII if
/// all its bytes are below `80` and UTF-8 otherwise; and of what is not
/// valid UTF-8, bytes that read as GB18030 sequences throughout are
/// GB18030, others are Windows-1252 if they hold a byte from `80` to `9F`
/// and Latin-1 if not.
pub open spec fn detected(bytes: Seq<u8>) -> Encoding {
    if has_bom(bytes, Encoding::Utf8Bom) {
        Encoding::Utf8Bom
    } else if has_bom(bytes, Encoding::Utf16Le) {
        Encoding::Utf16Le
    } else if has_bom(bytes, Encoding::Utf16Be) {
        Encoding::Utf16Be
    } else if bytes.len() == 0 {
        Encoding::Utf8
    } else if valid_utf8(bytes) {
        if is_ascii_bytes(bytes) {
            Encoding::Ascii
        } else {
            Encoding::Utf8
        }
    } else if gb18030_plausible(bytes) {
        Encoding::Gb18030
    } else if has_high_control(bytes) {
        Encoding::Windows1252
    } else {
        Encoding::Latin1
    }
}

/// How many bytes the byte-order mark of `d` has at the start of `bytes`:
/// 0 if `bytes` do not begin with it, or if `d` has none.
pub fn bom_len(bytes: &[u8], d: Encoding) -> (n: usize)
    ensures
        n == (if has_bom(bytes@, d) {
            bom_of(d).len() as int
        } else {
            0
        }),
        n <= bytes@.len(),
{
    let n = bytes.len();
    match d {
        Encoding::Utf8Bom => {
            if n >= 3 && bytes[0] == 0xEF && bytes[1] == 0xBB && bytes[2] == 0xBF {
                assert(bytes@.subrange(0, 3) =~= bom_of(d));
                3
            } else {
                assert(n >= 3 ==> bytes@.subrange(0, 3)[0] == bytes@[0] && bytes@.subrange(0, 3)[1]
                    == bytes@[1] && bytes@.subrange(0, 3)[2] == bytes@[2]);
                assert(bom_of(d)[0] == 0xEF && bom_of(d)[1] == 0xBB && bom_of(d)[2] == 0xBF);
                0
            }
        },
        Encoding::Utf16Le => {
            if n >= 2 && bytes[0] == 0xFF && bytes[1] == 0xFE {
                assert(bytes@.subrange(0, 2) =~= bom_of(d));
                2
            } else {
                assert(n >= 2 ==> bytes@.subrange(0, 2)[0] == bytes@[0] && bytes@.subrange(0, 2)[1]
                    == bytes@[1]);
                assert(bom_of(d)[0] == 0xFF && bom_of(d)[1] == 0xFE);
                0
            }
        },
        Encoding::Utf16Be => {
            if n >= 2 && bytes[0] == 0xFE && bytes[1] == 0xFF {
                assert(bytes@.subrange(0, 2) =~= bom_of(d));
                2
            } else {
                assert(n >= 2 ==> bytes@.subrange(0, 2)[0] == bytes@[0] && bytes@.subrange(0, 2)[1]
                    == bytes@[1]);
                assert(bom_of(d)[0] == 0xFE && bom_of(d)[1] == 0xFF);
                0
            }
        },
        _ => 0,
    }
}

/// Whether every byte is below `80`.
pub fn is_ascii(bytes: &[u8]) -> (r: bool)
    ensures
        r == is_ascii_bytes(bytes@),
{
    let mut i: usize = 0;
    while i < bytes.len()
        invariant
            0 <= i <= bytes@.len(),
            forall|k: int| 0 <= k < i ==> #[trigger] bytes@[k] < 0x80,
        decreases bytes@.len() - i,
    {
        if bytes[i] >= 0x80 {
            return false;
        }
        i += 1;
    }
    true
}

/// Whether some byte lies in the range `80` to `9F`.
pub fn contains_high_control(bytes: &[u8]) -> (r: bool)
    ensures
        r == has_high_control(bytes@),
{
    let mut i: usize = 0;
    while i < bytes.len()
        invariant
            0 <= i <= bytes@.len(),
            forall|k: int| 0 <= k < i ==> !(0x80 <= #[trigger] bytes@[k] <= 0x9F),
        decreases bytes@.len() - i,
    {
        if 0x80 <= bytes[i] && bytes[i] <= 0x9F {
            return true;
        }
        i += 1;
    }
    false
}

/// Whether `bytes` read as GB18030 text from front to back.
pub fn is_gb18030_plausible(bytes: &[u8]) -> (r: bool)
    ensures
        r == gb18030_plausible(bytes@),
{
    let n = bytes.len();
    let mut i: usize = 0;
    proof {
        assert(bytes@.subrange(0, n as int) =~= bytes@);
    }
    while i < n
        invariant
            0 <= i <= n,
            n == bytes@.len(),
            gb18030_plausible(bytes@) <==> gb18030_plausible(bytes@.subrange(i as int, n as int)),
        decreases n - i,
    {
        let ghost rest = bytes@.subrange(i as int, n as int);
        let b0 = bytes[i];
        assert(rest[0] == b0);
        let mut width: usize = 0;
        if b0 < 0x80 {
            width = 1;
        } else if 0x81 <= b0 && b0 <= 0xFE && n - i >= 2 {
            let b1 = bytes[i + 1];
            assert(rest[1] == b1);
            if 0x80 <= b1 && b1 <= 0xFE {
                width = 2;
            } else if 0x30 <= b1 && b1 <= 0x39 && n - i >= 4 {
                let b2 = bytes[i + 2];
                let b3 = bytes[i + 3];
                assert(rest[2] == b2 && rest[3] == b3);
                if 0x81 <= b2 && b2 <= 0xFE && 0x30 <= b3 && b3 <= 0x39 {
                    width = 4;
                }
            }
        }
        if width == 0 {
            return false;
        }
        proof {
            assert(rest.subrange(width as int, rest.len() as int) =~= bytes@.subrange(
                i + width,
                n as int,
            ));
        }
        i += width;
    }
    proof {
        assert(bytes@.subrange(n as int, n as int) =~= Seq::<u8>::empty());
    }
    true
}

/// Finds the encoding that `bytes` are taken to be in.
pub fn detect(bytes: &[u8]) -> (d: Encoding)
    ensures
        d == detected(bytes@),
{
    if bom_len(bytes, Encoding::Utf8Bom) > 0 {
        Encoding::Utf8Bom
    } else if bom_len(bytes, Encoding::Utf16Le) > 0 {
        Encoding::Utf16Le
    } else if bom_len(bytes, Encoding::Utf16Be) > 0 {
        Encoding::Utf16Be
    } else if bytes.len() == 0 {
        Encoding::Utf8
    } else if is_valid_utf8(bytes) {
        if is_ascii(bytes) {
            Encoding::Ascii
        } else {
            Encoding::Utf8
        }
    } else if is_gb18030_plausible(bytes) {
        Encoding::Gb18030
    } else if contains_high_control(bytes) {
        Encoding::Windows1252
    } else {
        Encoding::Latin1
    }
}

/// Whether decoding `bytes` from encoding `d` replaces nothing: the bytes
/// hold only what `d` can represent.
pub open spec fn decodes_cleanly(bytes: Seq<u8>, d: Encoding) -> bool {
    match d {
        Encoding::Gb18030 => !gb18030_decoded(bytes).1,
        _ => valid_for(bytes, d),
    }
}

/// Whether encoding `d` has the scalar value `c`.
pub open spec fn in_repertoire(c: u32, d: Encoding) -> bool {
    match d {
        Encoding::Ascii => c < 0x80,
        Encoding::Latin1 => c <= 0xFF,
        Encoding::Windows1252 => windows1252_byte(c) is Some,
        _ => true,
    }
}

/// Whether encoding the UTF-8 text `text` in encoding `d` substitutes
/// nothing. UTF-8 is written as it stands, so nothing is ever
/// substituted. For every other encoding the text must be valid UTF-8
/// and hold only characters that `d` has.
pub open spec fn encodes_cleanly(text: Seq<u8>, d: Encoding) -> bool {
    match d {
        Encoding::Utf8 | Encoding::Utf8Bom => true,
        Encoding::Gb18030 => valid_utf8(text) && !gb18030_encoded(utf8_lossy(text)).1,
        _ => valid_utf8(text) && forall|i: int|
            0 <= i < utf8_lossy(text).len() ==> in_repertoire(
                #[trigger] utf8_lossy(text)[i] as u32,
                d,
            ),
    }
}

/// Whether `bytes` are well-formed UTF-16 in the given byte order.
pub fn is_utf16_well_formed(bytes: &[u8], big_endian: bool) -> (r: bool)
    ensures
        r == utf16_well_formed(bytes@, big_endian),
{
    let n = bytes.len();
    let mut i: usize = 0;
    proof {
        assert(bytes@.subrange(0, n as int) =~= bytes@);
    }
    while i < n
        invariant
            0 <= i <= n,
            n == bytes@.len(),
            utf16_well_formed(bytes@, big_endian) <==> utf16_well_formed(
                bytes@.subrange(i as int, n as int),
                big_endian,
            ),
        decreases n - i,
    {
        let ghost rest = bytes@.subrange(i as int, n as int);
        if n - i < 2 {
            return false;
        }
        let unit = read_unit(bytes[i], bytes[i + 1], big_endian);
        assert(rest[0] == bytes@[i as int] && rest[1] == bytes@[i + 1]);
        let mut width: usize = 2;
        if 0xD800 <= unit && unit <= 0xDFFF {
            if unit > 0xDBFF || n - i < 4 {
                return false;
            }
            let low = read_unit(bytes[i + 2], bytes[i + 3], big_endian);
            assert(rest[2] == bytes@[i + 2] && rest[3] == bytes@[i + 3]);
            if !(0xDC00 <= low && low <= 0xDFFF) {
                return false;
            }
            width = 4;
        }
        proof {
            assert(rest.subrange(width as int, rest.len() as int) =~= bytes@.subrange(
                i + width,
                n as int,
            ));
        }
        i += width;
    }
    proof {
        assert(bytes@.subrange(n as int, n as int) =~= Seq::<u8>::empty());
    }
    true
}

/// Whether decoding `bytes` from encoding `d` replaces nothing. Where it
/// does not, the decoded text holds U+FFFD in place of what was
/// malformed.
pub fn is_clean(bytes: &[u8], d: Encoding) -> (r: bool)
    requires
        d == Encoding::Gb18030 ==> bytes@.len() <= usize::MAX / 16,
    ensures
        r == decodes_cleanly(bytes@, d),
{
    match d {
        Encoding::Utf8 | Encoding::Utf8Bom => is_valid_utf8(bytes),
        Encoding::Utf16Le => is_utf16_well_formed(bytes, false),
        Encoding::Utf16Be => is_utf16_well_formed(bytes, true),
        Encoding::Ascii => is_ascii(bytes),
        Encoding::Latin1 | Encoding::Windows1252 => true,
        Encoding::Gb18030 => !gb18030_decode(bytes).1,
    }
}

/// Whether encoding `d` has the scalar value `c`.
pub fn can_encode(c: u32, d: Encoding) -> (r: bool)
    ensures
        r == in_repertoire(c, d),
{
    match d {
        Encoding::Ascii => c < 0x80,
        Encoding::Latin1 => c <= 0xFF,
        Encoding::Windows1252 => windows1252_encode(c).is_some(),
        _ => true,
    }
}

/// Whether encoding the UTF-8 text `text` in encoding `d` substitutes
/// nothing. Where it does not, the encoded bytes hold a substitute in
/// place of each character that `d` lacks.
pub fn is_representable(text: &[u8], d: Encoding) -> (r: bool)
    requires
        d == Encoding::Gb18030 ==> text@.len() <= usize::MAX / 64,
    ensures
        r == encodes_cleanly(text@, d),
{
    match d {
        Encoding::Utf8 | Encoding::Utf8Bom => {
            return true;
        },
        _ => {},
    }
    if !is_valid_utf8(text) {
        return false;
    }
    proof {
        lemma_utf8_lossy_valid(text@);
    }
    match d {
        Encoding::Gb18030 => {
            let sound_text = decode_lossy(text);
            proof {
                vstd::utf8::decode_utf8_encode_utf8(text@);
            }
            return !gb18030_encode(sound_text.as_str()).1;
        },
        _ => {},
    }
    let n = text.len();
    let mut i: usize = 0;
    let ghost mut done: Seq<char> = Seq::empty();
    proof {
        assert(text@.subrange(0, n as int) =~= text@);
    }
    while i < n
        invariant
            0 <= i <= n,
            n == text@.len(),
            done + utf8_lossy(text@.subrange(i as int, n as int)) == utf8_lossy(text@),
            forall|k: int| 0 <= k < done.len() ==> in_repertoire(#[trigger] done[k] as u32, d),
        decreases n - i,
    {
        let ghost rest = text@.subrange(i as int, n as int);
        let (scalar, width) = match first_scalar(text, i) {
            Some(found) => found,
            None => (REPLACEMENT, 1),
        };
        proof {
            let c = scalar as char;
            assert(c as u32 == scalar);
            let after = text@.subrange(i + width, n as int);
            if valid_first_scalar(rest) {
                assert(pop_first_scalar(rest) =~= after);
            } else {
                assert(rest.subrange(1, rest.len() as int) =~= after);
            }
            assert(utf8_lossy(rest) == seq![c] + utf8_lossy(after));
            assert(done.push(c) + utf8_lossy(after) =~= done + utf8_lossy(rest));
            assert(utf8_lossy(text@)[done.len() as int] == c);
        }
        if !can_encode(scalar, d) {
            return false;
        }
        proof {
            done = done.push(scalar as char);
        }
        i += width;
    }
    proof {
        assert(text@.subrange(n as int, n as int) =~= Seq::<u8>::empty());
        assert(done + Seq::<char>::empty() =~= done);
    }
    true
}

/// The two bytes of a unit make that unit again.
pub proof fn lemma_unit_inverse(unit: u16, big_endian: bool)
    ensures
        unit_bytes(unit, big_endian).len() == 2,
        utf16_unit(unit_bytes(unit, big_endian)[0], unit_bytes(unit, big_endian)[1], big_endian)
            == unit,
{
    let high = (unit / 256) as u8;
    let low = (unit % 256) as u8;
    assert(high == unit / 256 && low == unit % 256);
    assert(high * 256 + low == unit);
}

/// Characters written as UTF-16 are well-formed UTF-16 that stands for
/// the same characters.
pub proof fn lemma_utf16_back(chars: Seq<char>, big_endian: bool)
    ensures
        utf16_well_formed(
            bytes_of(
                chars,
                if big_endian {
                    Encoding::Utf16Be
                } else {
                    Encoding::Utf16Le
                },
            ),
            big_endian,
        ),
        utf16_chars(
            bytes_of(
                chars,
                if big_endian {
                    Encoding::Utf16Be
                } else {
                    Encoding::Utf16Le
                },
            ),
            big_endian,
        ) == chars,
    decreases chars.len(),
{
    let d = if big_endian {
        Encoding::Utf16Be
    } else {
        Encoding::Utf16Le
    };
    if chars.len() == 0 {
        assert(utf16_chars(bytes_of(chars, d), big_endian) =~= chars);
    } else {
        let c = chars[0];
        let rest = chars.drop_first();
        let v = c as u32;
        lemma_utf16_back(rest, big_endian);
        assert(seq![c] + rest =~= chars);
        lemma_bytes_of_first(c, rest, d);
        vstd::utf8::char_is_scalar(c);
        vstd::utf8::char_u32_cast(c, v);
        let tail = bytes_of(rest, d);
        let all = bytes_of(chars, d);
        assert(all == utf16_bytes(v, big_endian) + tail);
        if v < 0x10000 {
            let unit = v as u16;
            lemma_unit_inverse(unit, big_endian);
            assert(all[0] == unit_bytes(unit, big_endian)[0]);
            assert(all[1] == unit_bytes(unit, big_endian)[1]);
            assert(all.subrange(2, all.len() as int) =~= tail);
            assert((unit as u32) as char == c);
            assert(seq![c] + rest =~= chars);
        } else {
            let high = (0xD800 + (v - 0x10000) / 0x400) as u16;
            let low = (0xDC00 + (v - 0x10000) % 0x400) as u16;
            lemma_unit_inverse(high, big_endian);
            lemma_unit_inverse(low, big_endian);
            assert(high == 0xD800 + (v - 0x10000) / 0x400);
            assert(low == 0xDC00 + (v - 0x10000) % 0x400);
            let first = unit_bytes(high, big_endian);
            let second = unit_bytes(low, big_endian);
            assert(all[0] == first[0] && all[1] == first[1]);
            assert(all[2] == second[0] && all[3] == second[1]);
            assert(all.subrange(4, all.len() as int) =~= tail);
            assert(pair_scalar(high, low) == v);
        }
    }
}

/// Characters of a single-byte encoding, written in it, are bytes that
/// the encoding can represent and that stand for the same characters.
pub proof fn lemma_single_byte_back(chars: Seq<char>, d: Encoding)
    requires
        d == Encoding::Ascii || d == Encoding::Latin1 || d == Encoding::Windows1252,
        forall|i: int| 0 <= i < chars.len() ==> in_repertoire(#[trigger] chars[i] as u32, d),
    ensures
        bytes_of(chars, d).len() == chars.len(),
        valid_for(bytes_of(chars, d), d),
        chars_of(bytes_of(chars, d), d) == chars,
    decreases chars.len(),
{
    if chars.len() == 0 {
        assert(chars_of(bytes_of(chars, d), d) =~= chars);
    } else {
        let front = chars.drop_last();
        let c = chars.last();
        let v = c as u32;
        lemma_single_byte_back(front, d);
        vstd::utf8::char_u32_cast(c, v);
        assert(in_repertoire(chars[chars.len() - 1] as u32, d));
        let b = char_bytes(c, d)[0];
        assert(char_bytes(c, d) =~= seq![b]);
        assert(byte_code(b, d) == v);
        let all = bytes_of(chars, d);
        assert(all == bytes_of(front, d) + seq![b]);
        assert(chars_of(all, d) =~= chars_of(bytes_of(front, d), d).push(c));
        assert(front.push(c) =~= chars);
        if d == Encoding::Ascii {
            assert forall|i: int| 0 <= i < all.len() implies #[trigger] all[i] < 0x80 by {
                if i < front.len() {
                    assert(all[i] == bytes_of(front, d)[i]);
                }
            }
        }
    }
}

/// Encoding loses nothing where nothing is substituted: valid UTF-8 text
/// that holds only characters of the encoding comes back unchanged when
/// it is encoded and the bytes are decoded again, and the bytes hold only
/// what the encoding can represent. Of GB18030 nothing is claimed.
pub proof fn lemma_lossless_encoding(text: Seq<u8>, d: Encoding)
    requires
        valid_utf8(text),
        encodes_cleanly(text, d),
        d != Encoding::Gb18030,
    ensures
        valid_for(encoded(text, d), d),
        decoded(encoded(text, d), d) == text,
{
    let chars = utf8_lossy(text);
    lemma_utf8_lossy_valid(text);
    vstd::utf8::decode_utf8_encode_utf8(text);
    match d {
        Encoding::Utf8 | Encoding::Utf8Bom => {},
        Encoding::Utf16Le => {
            lemma_utf16_back(chars, false);
        },
        Encoding::Utf16Be => {
            lemma_utf16_back(chars, true);
        },
        Encoding::Gb18030 => {},
        _ => {
            lemma_single_byte_back(chars, d);
        },
    }
}

/// A file that holds only what its encoding can represent comes back
/// byte for byte when its text is decoded and written out again in the
/// same encoding, with a byte-order mark exactly if it began with one.
pub proof fn lemma_file_round_trip(bytes: Seq<u8>, d: Encoding)
    requires
        valid_for(body_of(bytes, d), d),
    ensures
        file_bytes(decoded(body_of(bytes, d), d), d, has_bom(bytes, d)) == bytes,
{
    lemma_round_trip(body_of(bytes, d), d);
    if has_bom(bytes, d) {
        assert(bytes.subrange(0, bom_of(d).len() as int) + bytes.subrange(
            bom_of(d).len() as int,
            bytes.len() as int,
        ) =~= bytes);
    }
}

} // verus!
